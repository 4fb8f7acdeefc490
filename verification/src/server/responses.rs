//! Response bodies of the OpenAI-compatible API: completion ids, the model
//! list, streamed chunks and the non-streamed completion with its text.

use vstd::prelude::*;
use vstd::string::StringExecFns;
use super::UsageInfo;

verus! {

/// The decimal digit `d` as a character.
pub open spec fn digit_char(d: nat) -> char {
    if d == 0 {
        '0'
    } else if d == 1 {
        '1'
    } else if d == 2 {
        '2'
    } else if d == 3 {
        '3'
    } else if d == 4 {
        '4'
    } else if d == 5 {
        '5'
    } else if d == 6 {
        '6'
    } else if d == 7 {
        '7'
    } else if d == 8 {
        '8'
    } else {
        '9'
    }
}

/// Decimal representation of `n`, most significant digit first, without
/// leading zeros.
pub open spec fn decimal(n: nat) -> Seq<char>
    decreases n,
{
    if n < 10 {
        seq![digit_char(n)]
    } else {
        decimal(n / 10) + seq![digit_char(n % 10)]
    }
}

/// The one-character string of the digit `d`.
fn digit_str(d: usize) -> (r: &'static str)
    requires
        d < 10,
    ensures
        r@ == seq![digit_char(d as nat)],
{
    proof {
        reveal_strlit("0");
        reveal_strlit("1");
        reveal_strlit("2");
        reveal_strlit("3");
        reveal_strlit("4");
        reveal_strlit("5");
        reveal_strlit("6");
        reveal_strlit("7");
        reveal_strlit("8");
        reveal_strlit("9");
    }
    let r = if d == 0 {
        "0"
    } else if d == 1 {
        "1"
    } else if d == 2 {
        "2"
    } else if d == 3 {
        "3"
    } else if d == 4 {
        "4"
    } else if d == 5 {
        "5"
    } else if d == 6 {
        "6"
    } else if d == 7 {
        "7"
    } else if d == 8 {
        "8"
    } else {
        "9"
    };
    assert(r@ =~= seq![digit_char(d as nat)]);
    r
}

/// Appends the decimal representation of `n` to `s`.
fn push_decimal(s: &mut String, n: usize)
    ensures
        final(s)@ == old(s)@ + decimal(n as nat),
    decreases n,
{
    if n >= 10 {
        push_decimal(s, n / 10);
    }
    s.append(digit_str(n % 10));
    assert(final(s)@ =~= old(s)@ + decimal(n as nat));
}

/// Id of the chat completion for sequence `seq_id`: `chatcmpl-nexus-` and
/// the sequence id in decimal.
pub fn completion_id(seq_id: usize) -> (r: String)
    ensures
        r@ == "chatcmpl-nexus-"@ + decimal(seq_id as nat),
{
    let mut s = String::from_str("chatcmpl-nexus-");
    push_decimal(&mut s, seq_id);
    s
}

/// Text of one generated token: the word followed by a space.
pub fn token_text(word: &str) -> (r: String)
    ensures
        r@ == word@ + " "@,
{
    String::from_str(word).concat(" ")
}

/// A model the server offers.
#[derive(Debug, Clone)]
pub struct ModelCard {
    pub id: String,
    pub object: String,
    pub created: u64,
    pub owned_by: String,
}

/// The list of offered models.
#[derive(Debug, Clone)]
pub struct ModelListResponse {
    pub object: String,
    pub data: Vec<ModelCard>,
}

/// Whether `c` describes the model `id` owned by `nexuskv`.
pub open spec fn is_model_card(c: ModelCard, id: Seq<char>) -> bool {
    &&& c.id@ == id
    &&& c.object@ == "model"@
    &&& c.created == 1700000000
    &&& c.owned_by@ == "nexuskv"@
}

fn model_card(id: &str) -> (c: ModelCard)
    ensures
        is_model_card(c, id@),
{
    ModelCard {
        id: String::from_str(id),
        object: String::from_str("model"),
        created: 1700000000,
        owned_by: String::from_str("nexuskv"),
    }
}

/// The models offered: the engine model, then the speculative one.
pub fn model_list() -> (r: ModelListResponse)
    ensures
        r.object@ == "list"@,
        r.data@.len() == 2,
        is_model_card(r.data@[0], "nexuskv-engine-v1"@),
        is_model_card(r.data@[1], "nexuskv-speculative-v1"@),
{
    let mut data: Vec<ModelCard> = Vec::new();
    data.push(model_card("nexuskv-engine-v1"));
    data.push(model_card("nexuskv-speculative-v1"));
    ModelListResponse { object: String::from_str("list"), data }
}

/// Incremental content of a streamed choice.
#[derive(Debug, Clone)]
pub struct ChatChoiceDelta {
    pub role: Option<String>,
    pub content: Option<String>,
}

/// One choice of a streamed chunk.
#[derive(Debug, Clone)]
pub struct ChatChunkChoice {
    pub index: usize,
    pub delta: ChatChoiceDelta,
    pub finish_reason: Option<String>,
}

/// One event of a streamed chat completion.
#[derive(Debug, Clone)]
pub struct ChatCompletionChunk {
    pub id: String,
    pub object: String,
    pub created: u64,
    pub model: String,
    pub choices: Vec<ChatChunkChoice>,
}

/// Whether `c` is a chunk of completion `id` for `model`, created at
/// `created`, with a single choice at index 0.
pub open spec fn is_chunk_of(c: ChatCompletionChunk, id: Seq<char>, created: u64, model: Seq<char>) -> bool {
    &&& c.id@ == id
    &&& c.object@ == "chat.completion.chunk"@
    &&& c.created == created
    &&& c.model@ == model
    &&& c.choices@.len() == 1
    &&& c.choices@[0].index == 0
}

fn single_chunk(id: &String, created: u64, model: &String, choice: ChatChunkChoice) -> (c: ChatCompletionChunk)
    ensures
        c.id@ == id@,
        c.object@ == "chat.completion.chunk"@,
        c.created == created,
        c.model@ == model@,
        c.choices@ == seq![choice],
{
    let mut choices: Vec<ChatChunkChoice> = Vec::new();
    choices.push(choice);
    ChatCompletionChunk {
        id: id.clone(),
        object: String::from_str("chat.completion.chunk"),
        created,
        model: model.clone(),
        choices,
    }
}

/// The first chunk of a stream: it announces the assistant role and carries
/// no content.
pub fn role_chunk(id: &String, created: u64, model: &String) -> (c: ChatCompletionChunk)
    ensures
        is_chunk_of(c, id@, created, model@),
        c.choices@[0].delta.role matches Some(r) && r@ == "assistant"@,
        c.choices@[0].delta.content is None,
        c.choices@[0].finish_reason is None,
{
    let choice = ChatChunkChoice {
        index: 0,
        delta: ChatChoiceDelta { role: Some(String::from_str("assistant")), content: None },
        finish_reason: None,
    };
    single_chunk(id, created, model, choice)
}

/// The chunk carrying one generated word; the last one also carries the
/// finish reason `stop`.
pub fn token_chunk(id: &String, created: u64, model: &String, word: &str, is_last: bool) -> (c: ChatCompletionChunk)
    ensures
        is_chunk_of(c, id@, created, model@),
        c.choices@[0].delta.role is None,
        c.choices@[0].delta.content matches Some(t) && t@ == word@ + " "@,
        is_last ==> (c.choices@[0].finish_reason matches Some(f) && f@ == "stop"@),
        !is_last ==> c.choices@[0].finish_reason is None,
{
    let finish_reason = if is_last {
        Some(String::from_str("stop"))
    } else {
        None
    };
    let choice = ChatChunkChoice {
        index: 0,
        delta: ChatChoiceDelta { role: None, content: Some(token_text(word)) },
        finish_reason,
    };
    single_chunk(id, created, model, choice)
}

/// The words of a generation of `n` steps whose step `k + 1` emits word
/// `k % words.len()` of the vocabulary.
pub open spec fn cycled_words(words: Seq<Seq<char>>, n: nat) -> Seq<Seq<char>> {
    Seq::new(n, |k: int| words[k % (words.len() as int)])
}

/// The words of `ws` separated by single spaces.
pub open spec fn join_spaced(ws: Seq<Seq<char>>) -> Seq<char>
    decreases ws.len(),
{
    if ws.len() == 0 {
        Seq::empty()
    } else if ws.len() == 1 {
        ws[0]
    } else {
        join_spaced(ws.drop_last()) + seq![' '] + ws.last()
    }
}

/// The vocabulary `words` as character sequences.
pub open spec fn vocabulary(words: Seq<&str>) -> Seq<Seq<char>> {
    words.map_values(|w: &str| w@)
}

/// Full text of a non-streamed generation of `max_tokens` words cycling
/// through `words`, separated by spaces.
pub fn completion_text(words: &[&str], max_tokens: usize) -> (r: String)
    requires
        max_tokens > 0 ==> words@.len() > 0,
    ensures
        r@ == join_spaced(cycled_words(vocabulary(words@), max_tokens as nat)),
{
    let ghost vw = vocabulary(words@);
    let mut out = String::new();
    let mut k: usize = 0;
    proof {
        reveal_strlit(" ");
        assert(cycled_words(vw, 0) =~= Seq::<Seq<char>>::empty());
    }
    while k < max_tokens
        invariant
            0 <= k <= max_tokens,
            max_tokens > 0 ==> words@.len() > 0,
            vw == vocabulary(words@),
            " "@ == seq![' '],
            out@ == join_spaced(cycled_words(vw, k as nat)),
        decreases max_tokens - k,
    {
        let ghost before = out@;
        if k > 0 {
            out.append(" ");
        }
        let w = words[k % words.len()];
        out.append(w);
        proof {
            let next = cycled_words(vw, (k + 1) as nat);
            assert(next.drop_last() =~= cycled_words(vw, k as nat));
            assert(next.last() == w@);
            if k == 0 {
                assert(out@ =~= next[0]);
            } else {
                assert(out@ =~= before + seq![' '] + next.last());
            }
        }
        k = k + 1;
    }
    out
}

/// The assistant's message of a completion.
#[derive(Debug, Clone)]
pub struct ChatChoiceMessage {
    pub role: String,
    pub content: String,
}

/// One choice of a non-streamed completion.
#[derive(Debug, Clone)]
pub struct ChatChoice {
    pub index: usize,
    pub message: ChatChoiceMessage,
    pub finish_reason: String,
}

/// A non-streamed chat completion.
#[derive(Debug, Clone)]
pub struct ChatCompletionResponse {
    pub id: String,
    pub object: String,
    pub created: u64,
    pub model: String,
    pub choices: Vec<ChatChoice>,
    pub usage: UsageInfo,
}

/// The completion `id` for `model`, created at `created`, whose single
/// choice is the assistant's message `content`, finished by `stop`.
pub fn completion_response(id: String, created: u64, model: String, content: String, usage: UsageInfo) -> (r: ChatCompletionResponse)
    ensures
        r.id == id,
        r.object@ == "chat.completion"@,
        r.created == created,
        r.model == model,
        r.choices@.len() == 1,
        r.choices@[0].index == 0,
        r.choices@[0].message.role@ == "assistant"@,
        r.choices@[0].message.content == content,
        r.choices@[0].finish_reason@ == "stop"@,
        r.usage == usage,
{
    let choice = ChatChoice {
        index: 0,
        message: ChatChoiceMessage { role: String::from_str("assistant"), content },
        finish_reason: String::from_str("stop"),
    };
    let mut choices: Vec<ChatChoice> = Vec::new();
    choices.push(choice);
    ChatCompletionResponse { id, object: String::from_str("chat.completion"), created, model, choices, usage }
}

} // verus!
