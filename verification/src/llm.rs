//! Providers of models: which models are for chatting, what they list, and what their refusals
//! mean.
use vstd::prelude::*;
use serde_json::Value;
use crate::json;
use crate::json::{JsonNode, JsonV};
use crate::stream::LlmError;
use crate::text;
use crate::unicode;

verus! {

/// How long an answer of Anthropic may get, in tokens.
pub const ANTHROPIC_MAX_TOKENS: u32 = 4096;

/// What tells a model that is not for chatting.
pub const NON_CHAT: [&'static str; 20] = [
    "flux",
    "stable-diffusion",
    "sd3",
    "sdxl",
    "dall-e",
    "playground-v",
    "kandinsky",
    "-image",
    "image-",
    "embed",
    "whisper",
    "tts",
    "-audio",
    "rerank",
    "clip",
    "moderation",
    "-vae",
    "upscal",
    "controlnet",
    "guard",
];

/// A name in lower case is that of a model for chatting.
pub open spec fn chat_name(lower: Seq<char>) -> bool {
    forall|i: int| 0 <= i < 20 ==> !text::contains(lower, #[trigger] NON_CHAT@[i]@)
}

/// Whether a name in lower case is that of a model for chatting.
pub fn is_chat_name(lower: &str) -> (r: bool)
    ensures
        r == chat_name(lower@),
{
    let v = text::chars_of(lower);
    let marks = NON_CHAT;
    for i in 0..20usize
        invariant
            v@ == lower@,
            marks == NON_CHAT,
            forall|k: int| 0 <= k < i ==> !text::contains(lower@, #[trigger] NON_CHAT@[k]@),
    {
        if text::has(&v, &text::chars_of(marks[i])) {
            assert(text::contains(lower@, NON_CHAT@[i as int]@));
            return false;
        }
    }
    true
}

/// Whether a model is for chatting, as far as its name tells. Others refuse to chat, so they are
/// not offered.
pub fn is_chat_model(id: &str) -> (r: bool)
    ensures
        r == chat_name(unicode::text_lower(id@)),
{
    is_chat_name(unicode::lower_text(id).as_str())
}

/// What a refusal says, shortened, behind a dash; nothing where it says nothing.
pub open spec fn snippet(body: Seq<char>) -> Seq<char> {
    let t = text::trim(body);
    if t.len() == 0 {
        Seq::empty()
    } else {
        " — "@ + (if t.len() <= 200 {
            t
        } else {
            t.take(200)
        })
    }
}

/// What is said of a refusal.
pub open spec fn refusal(status: u16, body: Seq<char>) -> Seq<char> {
    let code = text::decimal(status as nat);
    if status == 401 || status == 403 {
        "That model doesn't support chat — image and embedding models return "@ + code
            + ". Pick a chat model, or check the API key in Settings."@ + snippet(body)
    } else if status == 404 {
        "Model not found ("@ + code + "). Check the model id in Settings."@ + snippet(body)
    } else if status == 400 {
        "The provider rejected the request ("@ + code + ")."@ + snippet(body)
    } else if status == 429 {
        "Rate limited ("@ + code + "). Try again in a moment."@
    } else {
        "Provider error ("@ + code + ")."@ + snippet(body)
    }
}

fn snippet_of(body: &str) -> (r: String)
    ensures
        r@ == snippet(body@),
{
    let v = text::chars_of(body);
    let t = text::trim_chars(&v);
    if t.len() == 0 {
        let none = String::new();
        assert(none@ =~= Seq::empty());
        return none;
    }
    let mut s = " — ".to_owned();
    if t.len() <= 200 {
        s.append(text::string_of(t).as_str());
    } else {
        let head = vstd::slice::slice_subrange(t, 0, 200);
        assert(head@ =~= t@.take(200));
        s.append(text::string_of(head).as_str());
    }
    s
}

fn around(a: &str, code: &str, b: &str, c: &str) -> (r: String)
    ensures
        r@ == a@ + code@ + b@ + c@,
{
    let mut s = a.to_owned();
    s.append(code);
    s.append(b);
    s.append(c);
    s
}

/// What is said of a refusal to chat. Being refused access mostly means a model that is not for
/// chatting.
pub fn chat_error_message(status: u16, body: &str) -> (r: String)
    ensures
        r@ == refusal(status, body@),
{
    let code = text::decimal_of(status as u64);
    let tail = snippet_of(body);
    if status == 401 || status == 403 {
        around(
            "That model doesn't support chat — image and embedding models return ",
            code.as_str(),
            ". Pick a chat model, or check the API key in Settings.",
            tail.as_str(),
        )
    } else if status == 404 {
        around(
            "Model not found (",
            code.as_str(),
            "). Check the model id in Settings.",
            tail.as_str(),
        )
    } else if status == 400 {
        around("The provider rejected the request (", code.as_str(), ").", tail.as_str())
    } else if status == 429 {
        let r = around("Rate limited (", code.as_str(), "). Try again in a moment.", "");
        proof {
            reveal_strlit("");
            assert(r@ =~= refusal(status, body@));
        }
        r
    } else {
        around("Provider error (", code.as_str(), ").", tail.as_str())
    }
}

/// The pointer to a field of an element of a list.
pub open spec fn element_field(list: Seq<char>, i: nat, field: Seq<char>) -> Seq<char> {
    list + "/"@ + text::decimal(i) + "/"@ + field
}

/// The texts of a field of the first `n` elements of a list, where they have it.
pub open spec fn field_texts(
    nodes: Map<Seq<char>, JsonV>,
    list: Seq<char>,
    field: Seq<char>,
    n: nat,
) -> Seq<Seq<char>>
    decreases n,
{
    if n == 0 {
        Seq::empty()
    } else {
        let before = field_texts(nodes, list, field, (n - 1) as nat);
        match json::node_at(nodes, element_field(list, (n - 1) as nat, field)) {
            JsonV::Text(s) => before.push(s),
            _ => before,
        }
    }
}

/// The names a provider lists, or why its list cannot be read.
pub open spec fn names_in(body: Seq<char>, list: Seq<char>, field: Seq<char>) -> Result<
    Seq<Seq<char>>,
    Seq<char>,
> {
    match json::json_parsed(body) {
        Err(e) => Err(e),
        Ok(nodes) => match json::node_at(nodes, list) {
            JsonV::Array(n) => Ok(field_texts(nodes, list, field, n)),
            _ => Ok(Seq::empty()),
        },
    }
}

/// The names that were read, by their values.
pub open spec fn read_names(r: Result<Vec<String>, LlmError>) -> Result<Seq<Seq<char>>, Seq<char>> {
    match r {
        Ok(v) => Ok(text::texts(v@)),
        Err(LlmError::Decode(e)) => Err(e@),
        Err(_) => Err(Seq::empty()),
    }
}

/// The names in a document.
pub fn list_names(v: &Value, list: &str, field: &str) -> (r: Vec<String>)
    ensures
        text::texts(r@) == (match json::node_at(json::json_nodes(*v), list@) {
            JsonV::Array(n) => field_texts(json::json_nodes(*v), list@, field@, n),
            _ => Seq::empty(),
        }),
{
    let ghost nodes = json::json_nodes(*v);
    let mut out: Vec<String> = Vec::new();
    assert(text::texts(out@) =~= Seq::empty());
    if let JsonNode::Array(n) = json::lookup(v, list) {
        for i in 0..n
            invariant
                nodes == json::json_nodes(*v),
                text::texts(out@) == field_texts(nodes, list@, field@, i as nat),
        {
            let mut p = list.to_owned();
            p.append("/");
            p.append(text::decimal_of(i as u64).as_str());
            p.append("/");
            p.append(field);
            if let JsonNode::Text(s) = json::lookup(v, p.as_str()) {
                proof {
                    text::lemma_texts_push(out@, s);
                }
                out.push(s);
            }
        }
    }
    out
}

fn parse_names(body: &str, list: &str, field: &str) -> (r: Result<Vec<String>, LlmError>)
    ensures
        read_names(r) == names_in(body@, list@, field@),
        r is Err ==> r->Err_0 is Decode,
{
    match json::parse(body) {
        Ok(v) => Ok(list_names(&v, list, field)),
        Err(e) => Err(LlmError::Decode(e)),
    }
}

/// The models that a chat-completions provider lists.
pub fn parse_openai_models(body: &str) -> (r: Result<Vec<String>, LlmError>)
    ensures
        read_names(r) == names_in(body@, "/data"@, "id"@),
        r is Err ==> r->Err_0 is Decode,
{
    parse_names(body, "/data", "id")
}

/// The models that Ollama lists.
pub fn parse_tags(body: &str) -> (r: Result<Vec<String>, LlmError>)
    ensures
        read_names(r) == names_in(body@, "/models"@, "name"@),
        r is Err ==> r->Err_0 is Decode,
{
    parse_names(body, "/models", "name")
}

} // verus!
