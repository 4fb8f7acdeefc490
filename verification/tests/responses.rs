use nexuskv::server::responses::{
    completion_id, completion_response, completion_text, model_list, role_chunk, token_chunk, token_text,
};
use nexuskv::server::usage_info;

#[test]
fn completion_ids_are_decimal() {
    assert_eq!(completion_id(0), "chatcmpl-nexus-0");
    assert_eq!(completion_id(7), "chatcmpl-nexus-7");
    assert_eq!(completion_id(42), "chatcmpl-nexus-42");
    assert_eq!(completion_id(1000), "chatcmpl-nexus-1000");
    assert_eq!(completion_id(usize::MAX), format!("chatcmpl-nexus-{}", usize::MAX));
}

#[test]
fn token_text_appends_space() {
    assert_eq!(token_text("NexusKV"), "NexusKV ");
    assert_eq!(token_text(""), " ");
}

#[test]
fn model_list_offers_two_models() {
    let l = model_list();
    assert_eq!(l.object, "list");
    assert_eq!(l.data.len(), 2);
    assert_eq!(l.data[0].id, "nexuskv-engine-v1");
    assert_eq!(l.data[1].id, "nexuskv-speculative-v1");
    for c in &l.data {
        assert_eq!(c.object, "model");
        assert_eq!(c.created, 1700000000);
        assert_eq!(c.owned_by, "nexuskv");
    }
}

#[test]
fn stream_chunks() {
    let id = completion_id(3);
    let model = "nexuskv-engine-v1".to_string();
    let first = role_chunk(&id, 99, &model);
    assert_eq!(first.id, "chatcmpl-nexus-3");
    assert_eq!(first.object, "chat.completion.chunk");
    assert_eq!(first.created, 99);
    assert_eq!(first.model, model);
    assert_eq!(first.choices.len(), 1);
    assert_eq!(first.choices[0].index, 0);
    assert_eq!(first.choices[0].delta.role.as_deref(), Some("assistant"));
    assert_eq!(first.choices[0].delta.content, None);
    assert_eq!(first.choices[0].finish_reason, None);

    let mid = token_chunk(&id, 99, &model, "with", false);
    assert_eq!(mid.choices[0].delta.role, None);
    assert_eq!(mid.choices[0].delta.content.as_deref(), Some("with "));
    assert_eq!(mid.choices[0].finish_reason, None);

    let last = token_chunk(&id, 99, &model, ".", true);
    assert_eq!(last.choices[0].delta.content.as_deref(), Some(". "));
    assert_eq!(last.choices[0].finish_reason.as_deref(), Some("stop"));
}

#[test]
fn completion_text_cycles_and_joins() {
    let words = ["a", "bb", "c"];
    assert_eq!(completion_text(&words, 0), "");
    assert_eq!(completion_text(&words, 1), "a");
    assert_eq!(completion_text(&words, 5), "a bb c a bb");
    let none: [&str; 0] = [];
    assert_eq!(completion_text(&none, 0), "");
}

#[test]
fn completion_response_fields() {
    let r = completion_response(
        completion_id(5),
        123,
        "m".to_string(),
        "x y".to_string(),
        usage_info(10, 2),
    );
    assert_eq!(r.id, "chatcmpl-nexus-5");
    assert_eq!(r.object, "chat.completion");
    assert_eq!(r.created, 123);
    assert_eq!(r.model, "m");
    assert_eq!(r.choices.len(), 1);
    assert_eq!(r.choices[0].index, 0);
    assert_eq!(r.choices[0].message.role, "assistant");
    assert_eq!(r.choices[0].message.content, "x y");
    assert_eq!(r.choices[0].finish_reason, "stop");
    assert_eq!(r.usage.total_tokens, 12);
}
