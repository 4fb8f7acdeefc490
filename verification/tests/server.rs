use nexuskv::server::{
    chat_prompt_tokens, default_max_tokens, default_model_name, next_decode_step,
    prompt_tokens_from, usage_info, ChatMessage,
};

#[test]
fn request_defaults() {
    assert_eq!(default_max_tokens(), 64);
    assert_eq!(default_model_name(), "nexuskv-engine-v1");
}

#[test]
fn prompt_tokenization() {
    assert_eq!(prompt_tokens_from(""), vec![1, 2, 3]);
    assert_eq!(prompt_tokens_from("Hi!"), vec![72, 105, 33]);
}

#[test]
fn chat_prompt_layout() {
    let msgs = vec![ChatMessage { role: "user".to_string(), content: "ok".to_string() }];
    let expected: Vec<u32> = "<|user|>\nok\n<|assistant|>\n".bytes().map(|b| b as u32).collect();
    assert_eq!(chat_prompt_tokens(&msgs), expected);
    let empty: Vec<u32> = "<|assistant|>\n".bytes().map(|b| b as u32).collect();
    assert_eq!(chat_prompt_tokens(&[]), empty);
}

#[test]
fn usage_totals() {
    let u = usage_info(30, 12);
    assert_eq!(u.total_tokens, 42);
}

#[test]
fn decode_steps_cycle_words() {
    let d = next_decode_step(0, 3, 17);
    assert_eq!((d.step, d.word_index, d.token_id, d.is_last), (1, 0, 101, false));
    let d = next_decode_step(17, 18, 17);
    assert_eq!((d.step, d.word_index, d.token_id, d.is_last), (18, 0, 118, true));
}
