//! Request-side logic of the serving API: defaults, prompt tokenization,
//! chat prompt assembly, model metadata, usage accounting and the decision
//! taken at each step of a streamed generation.

use vstd::prelude::*;
use vstd::string::StringSliceAdditionalSpecFns;

pub mod responses;

verus! {

/// Default generation budget when a request names none.
pub fn default_max_tokens() -> (r: usize)
    ensures
        r == 64,
{
    64
}

/// Default model name when a chat request names none.
pub fn default_model_name() -> (r: String)
    ensures
        r@ == "nexuskv-engine-v1"@,
{
    "nexuskv-engine-v1".to_owned()
}

/// Byte values widened to token ids.
pub open spec fn widen(bytes: Seq<u8>) -> Seq<u32> {
    Seq::new(bytes.len(), |i: int| bytes[i] as u32)
}

/// Token ids of a generation prompt: its UTF-8 bytes, or `[1, 2, 3]` for an empty prompt.
pub open spec fn prompt_token_ids(prompt: &str) -> Seq<u32> {
    if prompt@.len() == 0 {
        seq![1u32, 2u32, 3u32]
    } else {
        widen(prompt.spec_bytes())
    }
}

/// Appends the bytes of `s`, widened, to `out`.
fn push_bytes(out: &mut Vec<u32>, s: &str)
    ensures
        final(out)@ == old(out)@ + widen(s.spec_bytes()),
{
    let bytes = s.as_bytes();
    let ghost start = out@;
    let mut i: usize = 0;
    while i < bytes.len()
        invariant
            0 <= i <= bytes@.len(),
            bytes@ == s.spec_bytes(),
            out@ == start + widen(bytes@.take(i as int)),
        decreases bytes@.len() - i,
    {
        out.push(bytes[i] as u32);
        i = i + 1;
        assert(widen(bytes@.take(i as int)) =~= widen(bytes@.take(i - 1)).push(bytes@[i - 1] as u32));
        assert(out@ =~= start + widen(bytes@.take(i as int)));
    }
    assert(bytes@.take(i as int) =~= bytes@);
}

/// Token ids of a generation prompt: its bytes, or `[1, 2, 3]` when it is empty.
pub fn prompt_tokens_from(prompt: &str) -> (r: Vec<u32>)
    ensures
        r@ == prompt_token_ids(prompt),
{
    let mut out: Vec<u32> = Vec::new();
    if prompt.is_empty() {
        out.push(1);
        out.push(2);
        out.push(3);
        assert(out@ =~= seq![1u32, 2u32, 3u32]);
    } else {
        push_bytes(&mut out, prompt);
        assert(out@ =~= widen(prompt.spec_bytes()));
    }
    out
}

/// One message of a chat conversation.
#[derive(Debug, Clone)]
pub struct ChatMessage {
    pub role: String,
    pub content: String,
}

/// Bytes of the chat prompt for `msgs`: each message as
/// `<|role|>\ncontent\n`, then `<|assistant|>\n`.
pub open spec fn chat_messages_bytes(msgs: Seq<ChatMessage>) -> Seq<u8>
    decreases msgs.len(),
{
    if msgs.len() == 0 {
        Seq::empty()
    } else {
        let m = msgs.last();
        chat_messages_bytes(msgs.drop_last()) + "<|".spec_bytes() + vstd::utf8::encode_utf8(m.role@)
            + "|>\n".spec_bytes() + vstd::utf8::encode_utf8(m.content@) + "\n".spec_bytes()
    }
}

/// Token ids of the chat prompt for `msgs`.
pub open spec fn chat_prompt_ids(msgs: Seq<ChatMessage>) -> Seq<u32> {
    widen(chat_messages_bytes(msgs) + "<|assistant|>\n".spec_bytes())
}

/// Bytes one chat message contributes to the prompt: `<|role|>\ncontent\n`.
pub open spec fn message_bytes(m: ChatMessage) -> Seq<u8> {
    "<|".spec_bytes() + vstd::utf8::encode_utf8(m.role@) + "|>\n".spec_bytes() + vstd::utf8::encode_utf8(
        m.content@,
    ) + "\n".spec_bytes()
}

/// The prompt body of a single message is that message's bytes.
pub proof fn law_chat_body_of_one(m: ChatMessage)
    ensures
        chat_messages_bytes(seq![m]) == message_bytes(m),
{
    assert(seq![m].drop_last() =~= Seq::<ChatMessage>::empty());
    assert(seq![m].last() == m);
    assert(chat_messages_bytes(Seq::<ChatMessage>::empty()) =~= Seq::<u8>::empty());
    assert(chat_messages_bytes(seq![m]) =~= Seq::<u8>::empty() + message_bytes(m));
    assert(Seq::<u8>::empty() + message_bytes(m) =~= message_bytes(m));
}

/// Prompt bodies concatenate: the body of `a` followed by `b` is the body of
/// `a` followed by the body of `b`. With `law_chat_body_of_one`, the body
/// of any list is the bytes of all its messages in order.
pub proof fn law_chat_body_concat(a: Seq<ChatMessage>, b: Seq<ChatMessage>)
    ensures
        chat_messages_bytes(a + b) == chat_messages_bytes(a) + chat_messages_bytes(b),
    decreases b.len(),
{
    if b.len() == 0 {
        assert(a + b =~= a);
        assert(chat_messages_bytes(a) + chat_messages_bytes(b) =~= chat_messages_bytes(a));
    } else {
        law_chat_body_concat(a, b.drop_last());
        assert((a + b).drop_last() =~= a + b.drop_last());
        assert((a + b).last() == b.last());
        let m = b.last();
        let tail = "<|".spec_bytes() + vstd::utf8::encode_utf8(m.role@) + "|>\n".spec_bytes()
            + vstd::utf8::encode_utf8(m.content@) + "\n".spec_bytes();
        assert(chat_messages_bytes(a + b) =~= chat_messages_bytes(a + b.drop_last()) + tail);
        assert(chat_messages_bytes(b) =~= chat_messages_bytes(b.drop_last()) + tail);
        assert(chat_messages_bytes(a) + chat_messages_bytes(b.drop_last()) + tail =~= chat_messages_bytes(a) + (
        chat_messages_bytes(b.drop_last()) + tail));
    }
}

/// One more message: the prompt ids of `ms` followed by `m` are the body of
/// `ms`, then `<|role|>\ncontent\n` of `m`, then `<|assistant|>\n`, one id
/// per byte; so the prompt grows by exactly the length of `m`'s bytes, and
/// the prompt of no message is `<|assistant|>\n` alone.
pub proof fn law_chat_prompt_push(ms: Seq<ChatMessage>, m: ChatMessage)
    ensures
        chat_prompt_ids(ms.push(m)) == widen(
            chat_messages_bytes(ms) + message_bytes(m) + "<|assistant|>\n".spec_bytes(),
        ),
        chat_prompt_ids(ms.push(m)).len() == chat_prompt_ids(ms).len() + message_bytes(m).len(),
        chat_prompt_ids(Seq::<ChatMessage>::empty()) == widen("<|assistant|>\n".spec_bytes()),
{
    assert(ms.push(m) =~= ms + seq![m]);
    law_chat_body_concat(ms, seq![m]);
    law_chat_body_of_one(m);
    assert(chat_messages_bytes(Seq::<ChatMessage>::empty()) + "<|assistant|>\n".spec_bytes()
        =~= "<|assistant|>\n".spec_bytes());
}

/// Flattens chat messages into prompt token ids (one per byte).
pub fn chat_prompt_tokens(messages: &[ChatMessage]) -> (r: Vec<u32>)
    ensures
        r@ == chat_prompt_ids(messages@),
{
    let mut out: Vec<u32> = Vec::new();
    let mut i: usize = 0;
    while i < messages.len()
        invariant
            0 <= i <= messages@.len(),
            out@ == widen(chat_messages_bytes(messages@.take(i as int))),
        decreases messages@.len() - i,
    {
        let ghost before = out@;
        push_bytes(&mut out, "<|");
        push_bytes(&mut out, messages[i].role.as_str());
        push_bytes(&mut out, "|>\n");
        push_bytes(&mut out, messages[i].content.as_str());
        push_bytes(&mut out, "\n");
        proof {
            let m = messages@[i as int];
            assert(messages@.take(i + 1).drop_last() =~= messages@.take(i as int));
            assert(messages@.take(i + 1).last() == m);
            let b0 = chat_messages_bytes(messages@.take(i as int));
            assert(widen(b0 + "<|".spec_bytes() + vstd::utf8::encode_utf8(m.role@) + "|>\n".spec_bytes()
                + vstd::utf8::encode_utf8(m.content@) + "\n".spec_bytes()) =~= widen(b0) + widen(
                "<|".spec_bytes(),
            ) + widen(vstd::utf8::encode_utf8(m.role@)) + widen("|>\n".spec_bytes()) + widen(
                vstd::utf8::encode_utf8(m.content@),
            ) + widen("\n".spec_bytes()));
        }
        i = i + 1;
    }
    push_bytes(&mut out, "<|assistant|>\n");
    proof {
        assert(messages@.take(i as int) =~= messages@);
        assert(widen(chat_messages_bytes(messages@) + "<|assistant|>\n".spec_bytes()) =~= widen(
            chat_messages_bytes(messages@),
        ) + widen("<|assistant|>\n".spec_bytes()));
    }
    out
}

/// Token usage of a completed chat request.
#[derive(Debug, Clone, Copy, PartialEq, Eq, Structural)]
pub struct UsageInfo {
    pub prompt_tokens: usize,
    pub completion_tokens: usize,
    pub total_tokens: usize,
}

/// Usage record for a prompt and a completion.
pub fn usage_info(prompt_tokens: usize, completion_tokens: usize) -> (u: UsageInfo)
    requires
        prompt_tokens + completion_tokens <= usize::MAX,
    ensures
        u.prompt_tokens == prompt_tokens,
        u.completion_tokens == completion_tokens,
        u.total_tokens == prompt_tokens + completion_tokens,
{
    UsageInfo { prompt_tokens, completion_tokens, total_tokens: prompt_tokens + completion_tokens }
}

/// What a streamed generation does at its next step.
#[derive(Debug, Clone, Copy, PartialEq, Eq, Structural)]
pub struct DecodeStep {
    /// The step number, counting from 1.
    pub step: usize,
    /// Index of the word emitted at this step in the response vocabulary.
    pub word_index: usize,
    /// Token id recorded for this step.
    pub token_id: u32,
    /// Whether this step completes the generation.
    pub is_last: bool,
}

/// The step after `prev_step` of a generation of `max_tokens` tokens whose
/// words cycle through a vocabulary of `vocabulary_len` words.
pub fn next_decode_step(prev_step: usize, max_tokens: usize, vocabulary_len: usize) -> (d: DecodeStep)
    requires
        prev_step + 101 <= usize::MAX,
        vocabulary_len > 0,
    ensures
        d.step == prev_step + 1,
        d.word_index == prev_step % vocabulary_len,
        d.token_id == (prev_step + 101) as u32,
        d.is_last == (prev_step + 1 >= max_tokens),
{
    let step = prev_step + 1;
    #[verifier::truncate]
    let token_id = (step + 100) as u32;
    DecodeStep { step, word_index: (step - 1) % vocabulary_len, token_id, is_last: step >= max_tokens }
}

} // verus!
