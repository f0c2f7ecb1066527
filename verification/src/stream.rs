//! Streamed answers: the lines that providers send, and what they add up to.
use vstd::prelude::*;
use serde_json::Value;
use crate::decode;
use crate::json;
use crate::json::{JsonNode, JsonV};
use crate::rows;
use crate::text;
use crate::think;
use crate::think::ThinkSplitter;

verus! {

/// Why a model gave no answer.
#[derive(Debug, PartialEq, Eq)]
pub enum LlmError {
    Http(String),
    Decode(String),
    /// The provider sent nothing for so many seconds.
    Timeout(u64),
}

impl LlmError {
    /// The message of the error.
    pub fn message(&self) -> (r: String)
        ensures
            r@ == (match *self {
                LlmError::Http(e) => e@,
                LlmError::Decode(e) => "decode: "@ + e@,
                LlmError::Timeout(s) => "the provider stalled — no data for "@ + text::decimal(
                    s as nat,
                ) + "s (connection dropped or model too slow)"@,
            }),
    {
        match self {
            LlmError::Http(e) => e.clone(),
            LlmError::Decode(e) => {
                let mut s = "decode: ".to_owned();
                s.append(e.as_str());
                s
            },
            LlmError::Timeout(n) => {
                let mut s = "the provider stalled — no data for ".to_owned();
                s.append(text::decimal_of(*n).as_str());
                s.append("s (connection dropped or model too slow)");
                s
            },
        }
    }
}

/// How many seconds connecting may take.
pub const CONNECT_TIMEOUT_SECS: u64 = 15;

/// How many seconds may pass between two parts of an answer.
pub const STREAM_IDLE_TIMEOUT_SECS: u64 = 120;

/// How many tokens an answer cost: those of the prompt and those of the answer.
#[derive(Debug, Clone, Copy, PartialEq, Eq, Structural)]
pub struct Usage {
    pub in_tokens: u32,
    pub out_tokens: u32,
}

impl Default for Usage {
    fn default() -> (r: Self)
        ensures
            r.in_tokens == 0,
            r.out_tokens == 0,
    {
        Usage { in_tokens: 0, out_tokens: 0 }
    }
}

/// What a line of a stream says.
#[derive(Debug, PartialEq, Eq)]
pub struct LineOut {
    pub content: Option<String>,
    pub reasoning: Option<String>,
    pub in_tokens: Option<u32>,
    pub out_tokens: Option<u32>,
    pub done: bool,
}

/// What a [`LineOut`] holds.
#[verifier::ext_equal]
pub struct LineV {
    pub content: Option<Seq<char>>,
    pub reasoning: Option<Seq<char>>,
    pub in_tokens: Option<u32>,
    pub out_tokens: Option<u32>,
    pub done: bool,
}

impl View for LineOut {
    type V = LineV;

    open spec fn view(&self) -> LineV {
        LineV {
            content: text::opt_text(self.content),
            reasoning: text::opt_text(self.reasoning),
            in_tokens: self.in_tokens,
            out_tokens: self.out_tokens,
            done: self.done,
        }
    }
}

/// A line that says nothing.
pub open spec fn silent() -> LineV {
    LineV { content: None, reasoning: None, in_tokens: None, out_tokens: None, done: false }
}

impl Default for LineOut {
    fn default() -> (r: Self)
        ensures
            r@ == silent(),
    {
        LineOut { content: None, reasoning: None, in_tokens: None, out_tokens: None, done: false }
    }
}

// ---- fields ----------------------------------------------------------------------------------

/// The text at a pointer, if it is there and not empty.
pub open spec fn str_at(nodes: Map<Seq<char>, JsonV>, at: Seq<char>) -> Option<Seq<char>> {
    match json::node_at(nodes, at) {
        JsonV::Text(s) => if s.len() > 0 {
            Some(s)
        } else {
            None
        },
        _ => None,
    }
}

/// The number at a pointer, if it is there, as far as 32 bits hold it.
pub open spec fn u32_at(nodes: Map<Seq<char>, JsonV>, at: Seq<char>) -> Option<u32> {
    match json::node_at(nodes, at) {
        JsonV::Number(Some(n)) => Some(n as u32),
        _ => None,
    }
}

/// The text at a pointer, if it is there and not empty.
pub fn str_field(v: &Value, at: &str) -> (r: Option<String>)
    ensures
        text::opt_text(r) == str_at(json::json_nodes(*v), at@),
{
    match json::lookup(v, at) {
        JsonNode::Text(s) => if s.as_str().unicode_len() > 0 {
            Some(s)
        } else {
            None
        },
        _ => None,
    }
}

/// The number at a pointer, if it is there, as far as 32 bits hold it.
#[verifier::truncate]
pub fn u32_field(v: &Value, at: &str) -> (r: Option<u32>)
    ensures
        r == u32_at(json::json_nodes(*v), at@),
{
    match json::lookup(v, at) {
        JsonNode::Number(Some(n)) => Some(n as u32),
        _ => None,
    }
}

// ---- lines -----------------------------------------------------------------------------------

/// How a provider streams.
#[derive(Debug, Clone, Copy, PartialEq, Eq, Structural)]
pub enum Wire {
    /// A JSON object on every line.
    Generate,
    /// Server-sent events of the Messages API.
    Anthropic,
    /// Server-sent events of the chat-completions API.
    OpenAi,
}

/// What the document on a line says.
pub open spec fn generate_line(nodes: Map<Seq<char>, JsonV>) -> LineV {
    LineV {
        content: str_at(nodes, "/response"@),
        reasoning: str_at(nodes, "/thinking"@),
        in_tokens: u32_at(nodes, "/prompt_eval_count"@),
        out_tokens: u32_at(nodes, "/eval_count"@),
        done: match json::node_at(nodes, "/done"@) {
            JsonV::Bool(b) => b,
            _ => false,
        },
    }
}

/// What an event of the Messages API says.
pub open spec fn anthropic_line(nodes: Map<Seq<char>, JsonV>) -> LineV {
    match json::node_at(nodes, "/type"@) {
        JsonV::Text(t) => if t == "content_block_delta"@ {
            LineV {
                content: str_at(nodes, "/delta/text"@),
                reasoning: str_at(nodes, "/delta/thinking"@),
                ..silent()
            }
        } else if t == "message_start"@ {
            LineV { in_tokens: u32_at(nodes, "/message/usage/input_tokens"@), ..silent() }
        } else if t == "message_delta"@ {
            LineV { out_tokens: u32_at(nodes, "/usage/output_tokens"@), ..silent() }
        } else {
            silent()
        },
        _ => silent(),
    }
}

/// What an event of the chat-completions API says.
pub open spec fn openai_line(nodes: Map<Seq<char>, JsonV>) -> LineV {
    let listed = json::node_at(nodes, "/choices"@) is Array;
    LineV {
        content: if listed {
            str_at(nodes, "/choices/0/delta/content"@)
        } else {
            None
        },
        reasoning: if !listed {
            None
        } else if str_at(nodes, "/choices/0/delta/reasoning_content"@) is Some {
            str_at(nodes, "/choices/0/delta/reasoning_content"@)
        } else {
            str_at(nodes, "/choices/0/delta/reasoning"@)
        },
        in_tokens: u32_at(nodes, "/usage/prompt_tokens"@),
        out_tokens: u32_at(nodes, "/usage/completion_tokens"@),
        done: false,
    }
}

/// What stands behind `data:` on a line, if it begins so.
pub open spec fn event_data(line: Seq<char>) -> Option<Seq<char>> {
    let l = text::ltrim(line);
    if text::starts(l, "data:"@) {
        Some(text::trim(l.skip("data:"@.len() as int)))
    } else {
        None
    }
}

/// The document of an event, if it has one.
pub open spec fn event_document(line: Seq<char>) -> Option<Seq<char>> {
    match event_data(line) {
        Some(d) => if d.len() == 0 || d == "[DONE]"@ {
            None
        } else {
            Some(d)
        },
        None => None,
    }
}

/// What a line says by its document; a line without one says nothing.
pub open spec fn read_document(
    doc: Option<Seq<char>>,
    says: spec_fn(Map<Seq<char>, JsonV>) -> LineV,
) -> Result<LineV, Seq<char>> {
    match doc {
        None => Ok(silent()),
        Some(d) => match json::json_parsed(d) {
            Ok(nodes) => Ok(says(nodes)),
            Err(e) => Err(e),
        },
    }
}

/// What a line of a provider says, or why it cannot be read.
pub open spec fn line_of(wire: Wire, line: Seq<char>) -> Result<LineV, Seq<char>> {
    match wire {
        Wire::Generate => {
            let t = text::trim(line);
            read_document(
                if t.len() == 0 {
                    None
                } else {
                    Some(t)
                },
                |n: Map<Seq<char>, JsonV>| generate_line(n),
            )
        },
        Wire::Anthropic => read_document(
            event_document(line),
            |n: Map<Seq<char>, JsonV>| anthropic_line(n),
        ),
        Wire::OpenAi => if event_data(line) == Some("[DONE]"@) {
            Ok(LineV { done: true, ..silent() })
        } else {
            read_document(event_document(line), |n: Map<Seq<char>, JsonV>| openai_line(n))
        },
    }
}

/// A line that was read, by its value.
pub open spec fn read_line(r: Result<LineOut, LlmError>) -> Result<LineV, Seq<char>> {
    match r {
        Ok(l) => Ok(l@),
        Err(LlmError::Decode(e)) => Err(e@),
        Err(_) => Err(Seq::empty()),
    }
}

/// What the document on a line says.
pub fn read_generate(v: &Value) -> (r: LineOut)
    ensures
        r@ == generate_line(json::json_nodes(*v)),
{
    LineOut {
        content: str_field(v, "/response"),
        reasoning: str_field(v, "/thinking"),
        in_tokens: u32_field(v, "/prompt_eval_count"),
        out_tokens: u32_field(v, "/eval_count"),
        done: match json::lookup(v, "/done") {
            JsonNode::Bool(b) => b,
            _ => false,
        },
    }
}

/// What an event of the Messages API says.
pub fn read_anthropic(v: &Value) -> (r: LineOut)
    ensures
        r@ == anthropic_line(json::json_nodes(*v)),
{
    let mut out = LineOut::default();
    if let JsonNode::Text(t) = json::lookup(v, "/type") {
        if text::same_text(t.as_str(), "content_block_delta") {
            out.content = str_field(v, "/delta/text");
            out.reasoning = str_field(v, "/delta/thinking");
        } else if text::same_text(t.as_str(), "message_start") {
            out.in_tokens = u32_field(v, "/message/usage/input_tokens");
        } else if text::same_text(t.as_str(), "message_delta") {
            out.out_tokens = u32_field(v, "/usage/output_tokens");
        }
    }
    assert(out@ =~= anthropic_line(json::json_nodes(*v)));
    out
}

/// What an event of the chat-completions API says.
pub fn read_openai(v: &Value) -> (r: LineOut)
    ensures
        r@ == openai_line(json::json_nodes(*v)),
{
    let listed = match json::lookup(v, "/choices") {
        JsonNode::Array(_) => true,
        _ => false,
    };
    let mut out = LineOut::default();
    if listed {
        out.content = str_field(v, "/choices/0/delta/content");
        out.reasoning = match str_field(v, "/choices/0/delta/reasoning_content") {
            Some(s) => Some(s),
            None => str_field(v, "/choices/0/delta/reasoning"),
        };
    }
    out.in_tokens = u32_field(v, "/usage/prompt_tokens");
    out.out_tokens = u32_field(v, "/usage/completion_tokens");
    assert(out@ =~= openai_line(json::json_nodes(*v)));
    out
}

fn data_of(line: &str) -> (r: Option<String>)
    ensures
        text::opt_text(r) == event_data(line@),
{
    let v = text::chars_of(line);
    let l = crate::sections::trim_left(&v);
    let p = text::chars_of("data:");
    if text::starts_with(l, &p) {
        let rest = vstd::slice::slice_subrange(l, p.len(), l.len());
        assert(rest@ =~= l@.skip("data:"@.len() as int));
        Some(text::string_of(text::trim_chars(rest)))
    } else {
        None
    }
}

fn document_of(line: &str) -> (r: Option<String>)
    ensures
        text::opt_text(r) == event_document(line@),
{
    match data_of(line) {
        Some(d) => if d.as_str().unicode_len() == 0 || text::same_text(d.as_str(), "[DONE]") {
            None
        } else {
            Some(d)
        },
        None => None,
    }
}

/// Reads a line of Ollama's stream.
pub fn parse_generate_line(line: &str) -> (r: Result<LineOut, LlmError>)
    ensures
        read_line(r) == line_of(Wire::Generate, line@),
        r is Err ==> r->Err_0 is Decode,
{
    let t = text::trim_str(line);
    if t.as_str().unicode_len() == 0 {
        return Ok(LineOut::default());
    }
    match json::parse(t.as_str()) {
        Ok(v) => Ok(read_generate(&v)),
        Err(e) => Err(LlmError::Decode(e)),
    }
}

/// Reads a line of the Messages API's stream.
pub fn parse_anthropic_sse_line(line: &str) -> (r: Result<LineOut, LlmError>)
    ensures
        read_line(r) == line_of(Wire::Anthropic, line@),
        r is Err ==> r->Err_0 is Decode,
{
    match document_of(line) {
        None => Ok(LineOut::default()),
        Some(d) => match json::parse(d.as_str()) {
            Ok(v) => Ok(read_anthropic(&v)),
            Err(e) => Err(LlmError::Decode(e)),
        },
    }
}

/// Reads a line of a chat-completions stream.
pub fn parse_openai_sse_line(line: &str) -> (r: Result<LineOut, LlmError>)
    ensures
        read_line(r) == line_of(Wire::OpenAi, line@),
        r is Err ==> r->Err_0 is Decode,
{
    if let Some(d) = data_of(line) {
        if text::same_text(d.as_str(), "[DONE]") {
            let mut out = LineOut::default();
            out.done = true;
            assert(out@ =~= (LineV { done: true, ..silent() }));
            return Ok(out);
        }
    }
    match document_of(line) {
        None => Ok(LineOut::default()),
        Some(d) => match json::parse(d.as_str()) {
            Ok(v) => Ok(read_openai(&v)),
            Err(e) => Err(LlmError::Decode(e)),
        },
    }
}

/// Reads a line of a provider's stream.
pub fn parse_line(wire: Wire, line: &str) -> (r: Result<LineOut, LlmError>)
    ensures
        read_line(r) == line_of(wire, line@),
        r is Err ==> r->Err_0 is Decode,
{
    match wire {
        Wire::Generate => parse_generate_line(line),
        Wire::Anthropic => parse_anthropic_sse_line(line),
        Wire::OpenAi => parse_openai_sse_line(line),
    }
}

// ---- streams ---------------------------------------------------------------------------------

/// A part of an answer or of a thought.
#[derive(Debug, PartialEq, Eq)]
pub enum Emit {
    Token(String),
    Reasoning(String),
}

/// What an [`Emit`] holds.
pub enum EmitV {
    Token(Seq<char>),
    Reasoning(Seq<char>),
}

impl View for Emit {
    type V = EmitV;

    open spec fn view(&self) -> EmitV {
        match self {
            Emit::Token(s) => EmitV::Token(s@),
            Emit::Reasoning(s) => EmitV::Reasoning(s@),
        }
    }
}

/// An answer that is being streamed.
#[derive(Debug)]
pub struct Answer {
    pub wire: Wire,
    /// What has come and is not read yet.
    pub buf: String,
    /// The answer so far.
    pub full: String,
    pub splitter: ThinkSplitter,
    pub usage: Usage,
    pub done: bool,
}

/// What an [`Answer`] holds.
#[verifier::ext_equal]
pub struct AnswerV {
    pub wire: Wire,
    pub buf: Seq<char>,
    pub full: Seq<char>,
    pub in_think: bool,
    pub held: Seq<char>,
    pub usage: Usage,
    pub done: bool,
}

impl View for Answer {
    type V = AnswerV;

    open spec fn view(&self) -> AnswerV {
        AnswerV {
            wire: self.wire,
            buf: self.buf@,
            full: self.full@,
            in_think: self.splitter.in_think,
            held: self.splitter.buf@,
            usage: self.usage,
            done: self.done,
        }
    }
}

/// What some text adds, if there is any.
pub open spec fn token(s: Seq<char>) -> Seq<EmitV> {
    if s.len() > 0 {
        seq![EmitV::Token(s)]
    } else {
        Seq::empty()
    }
}

/// What some thought adds, if there is any.
pub open spec fn reasoning(s: Seq<char>) -> Seq<EmitV> {
    if s.len() > 0 {
        seq![EmitV::Reasoning(s)]
    } else {
        Seq::empty()
    }
}

/// An answer and what is passed on of it.
#[verifier::ext_equal]
pub struct FedV {
    pub answer: AnswerV,
    pub emits: Seq<EmitV>,
    pub error: Option<Seq<char>>,
}

/// The usage after a line.
pub open spec fn used(u: Usage, l: LineV) -> Usage {
    Usage {
        in_tokens: match l.in_tokens {
            Some(n) => n,
            None => u.in_tokens,
        },
        out_tokens: match l.out_tokens {
            Some(n) => n,
            None => u.out_tokens,
        },
    }
}

impl AnswerV {
    /// The answer after what a line says, if it says any answer.
    pub open spec fn with_content(self, c: Option<Seq<char>>) -> FedV {
        match c {
            None => FedV { answer: self, emits: Seq::empty(), error: None },
            Some(c) => {
                let s = think::split(self.in_think, self.held + c);
                FedV {
                    answer: AnswerV {
                        in_think: s.in_think,
                        held: s.buf,
                        full: self.full + s.content,
                        ..self
                    },
                    emits: reasoning(s.reasoning) + token(s.content),
                    error: None,
                }
            },
        }
    }

    /// The answer at its end: text held back belongs to it, thoughts held back are dropped.
    pub open spec fn closed(self) -> FedV {
        let rest = if self.in_think {
            Seq::empty()
        } else {
            self.held
        };
        FedV {
            answer: AnswerV { held: Seq::empty(), full: self.full + rest, done: true, ..self },
            emits: token(rest),
            error: None,
        }
    }

    /// The answer after a line; the last line of a stream ends it.
    pub open spec fn after_line(self, l: LineV, last: bool) -> FedV {
        let a = AnswerV { usage: used(self.usage, l), ..self };
        let thought = match l.reasoning {
            Some(r) => reasoning(r),
            None => Seq::empty(),
        };
        let b = a.with_content(l.content);
        if l.done || last {
            let c = b.answer.closed();
            FedV { answer: c.answer, emits: thought + b.emits + c.emits, error: None }
        } else {
            FedV { answer: b.answer, emits: thought + b.emits, error: None }
        }
    }

    /// The answer after every whole line that has come.
    pub open spec fn read_lines(self) -> FedV
        decreases self.buf.len(),
    {
        if self.done {
            FedV { answer: self, emits: Seq::empty(), error: None }
        } else {
            match text::find(self.buf, seq!['\n']) {
                None => FedV { answer: self, emits: Seq::empty(), error: None },
                Some(i) => {
                    proof {
                        text::lemma_find_from(self.buf, seq!['\n'], 0);
                    }
                    let rest = AnswerV { buf: self.buf.skip(i + 1), ..self };
                    match line_of(self.wire, self.buf.take(i + 1)) {
                        Err(e) => FedV { answer: rest, emits: Seq::empty(), error: Some(e) },
                        Ok(l) => {
                            let f = rest.after_line(l, false);
                            let g = AnswerV { buf: rest.buf, ..f.answer }.read_lines();
                            FedV { emits: f.emits + g.emits, ..g }
                        },
                    }
                },
            }
        }
    }

    /// The answer after more text.
    pub open spec fn fed(self, t: Seq<char>) -> FedV {
        (AnswerV { buf: self.buf + t, ..self }).read_lines()
    }

    /// The answer at the end of the stream: what is left is the last line.
    pub open spec fn ended(self) -> FedV {
        match line_of(self.wire, self.buf) {
            Err(e) => FedV { answer: self, emits: Seq::empty(), error: Some(e) },
            Ok(l) => self.after_line(l, true),
        }
    }
}

/// A new answer.
pub open spec fn blank(wire: Wire) -> AnswerV {
    AnswerV {
        wire,
        buf: Seq::empty(),
        full: Seq::empty(),
        in_think: false,
        held: Seq::empty(),
        usage: Usage { in_tokens: 0, out_tokens: 0 },
        done: false,
    }
}

/// An error, by its message.
pub open spec fn decode_error(e: Option<LlmError>) -> Option<Seq<char>> {
    match e {
        None => None,
        Some(LlmError::Decode(m)) => Some(m@),
        Some(_) => Some(Seq::empty()),
    }
}

fn push_token(out: &mut Vec<Emit>, s: &String)
    ensures
        rows::vals(final(out)@) == rows::vals(old(out)@) + token(s@),
{
    let ghost before = rows::vals(out@);
    if s.as_str().unicode_len() > 0 {
        let e = Emit::Token(s.clone());
        proof {
            rows::lemma_vals_push(out@, e);
        }
        out.push(e);
        assert(rows::vals(out@) =~= before + token(s@));
    } else {
        assert(before + token(s@) =~= before);
    }
}

fn push_reasoning(out: &mut Vec<Emit>, s: &String)
    ensures
        rows::vals(final(out)@) == rows::vals(old(out)@) + reasoning(s@),
{
    let ghost before = rows::vals(out@);
    if s.as_str().unicode_len() > 0 {
        let e = Emit::Reasoning(s.clone());
        proof {
            rows::lemma_vals_push(out@, e);
        }
        out.push(e);
        assert(rows::vals(out@) =~= before + reasoning(s@));
    } else {
        assert(before + reasoning(s@) =~= before);
    }
}

impl Answer {
    pub fn new(wire: Wire) -> (r: Self)
        ensures
            r@ == blank(wire),
    {
        let r = Answer {
            wire,
            buf: String::new(),
            full: String::new(),
            splitter: ThinkSplitter::default(),
            usage: Usage::default(),
            done: false,
        };
        assert(r@ =~= blank(wire));
        r
    }

    /// Takes what a line says; the last line of a stream ends the answer.
    pub fn accept(&mut self, l: LineOut, last: bool) -> (r: Vec<Emit>)
        ensures
            (FedV { answer: final(self)@, emits: rows::vals(r@), error: None })
                == old(self)@.after_line(l@, last),
    {
        let ghost was = self@;
        let ghost lv = l@;
        let mut out: Vec<Emit> = Vec::new();
        assert(rows::vals(out@) =~= Seq::empty());
        if let Some(n) = l.in_tokens {
            self.usage = Usage { in_tokens: n, out_tokens: self.usage.out_tokens };
        }
        if let Some(n) = l.out_tokens {
            self.usage = Usage { in_tokens: self.usage.in_tokens, out_tokens: n };
        }
        let ghost a = AnswerV { usage: used(was.usage, lv), ..was };
        assert(self@ =~= a);
        let ghost thought = match lv.reasoning {
            Some(r) => reasoning(r),
            None => Seq::empty(),
        };
        if let Some(r) = &l.reasoning {
            push_reasoning(&mut out, r);
        }
        assert(rows::vals(out@) =~= thought);
        let ghost b = a.with_content(lv.content);
        if let Some(c) = &l.content {
            let (t, r) = self.splitter.feed(c.as_str());
            push_reasoning(&mut out, &r);
            push_token(&mut out, &t);
            self.full.append(t.as_str());
            proof {
                let s = think::split(a.in_think, a.held + c@);
                assert(s.content == t@ && s.reasoning == r@);
                assert(self@ =~= b.answer);
                assert(rows::vals(out@) =~= thought + b.emits);
            }
        }
        assert(self@ =~= b.answer);
        assert(rows::vals(out@) =~= thought + b.emits);
        if l.done || last {
            let (t, _) = self.splitter.finish();
            push_token(&mut out, &t);
            self.full.append(t.as_str());
            self.done = true;
            assert(self@ =~= b.answer.closed().answer);
        }
        assert((FedV { answer: self@, emits: rows::vals(out@), error: None })
            =~= was.after_line(lv, last));
        out
    }

    /// Takes more text and reads every whole line that has come. What was passed on before a line
    /// that cannot be read stays passed on.
    pub fn feed_text(&mut self, t: &str) -> (r: (Vec<Emit>, Option<LlmError>))
        ensures
            (FedV { answer: final(self)@, emits: rows::vals(r.0@), error: decode_error(r.1) })
                == old(self)@.fed(t@),
    {
        let ghost was = self@;
        let ghost whole = was.fed(t@);
        self.buf.append(t);
        let mut out: Vec<Emit> = Vec::new();
        let nl = ['\n'];
        assert(nl@ =~= seq!['\n']);
        assert(self@ =~= (AnswerV { buf: was.buf + t@, ..was }));
        assert(whole =~= (FedV { emits: rows::vals(out@) + self@.read_lines().emits, ..self@.read_lines() }));
        while !self.done
            invariant
                nl@ == seq!['\n'],
                whole == was.fed(t@),
                was == old(self)@,
                whole == (FedV {
                    emits: rows::vals(out@) + self@.read_lines().emits,
                    ..self@.read_lines()
                }),
            decreases self@.buf.len(),
        {
            let v = text::chars_of(self.buf.as_str());
            match text::find_chars_from(&v, &nl, 0) {
                None => {
                    assert(rows::vals(out@) + Seq::<EmitV>::empty() =~= rows::vals(out@));
                    return (out, None);
                },
                Some(i) => {
                    let count: usize = v.len();
                    let line = vstd::slice::slice_subrange(v.as_slice(), 0, i + 1);
                    let rest = vstd::slice::slice_subrange(v.as_slice(), i + 1, count);
                    assert(line@ =~= self@.buf.take(i + 1));
                    assert(rest@ =~= self@.buf.skip(i + 1));
                    let ghost at = self@;
                    let ghost before = rows::vals(out@);
                    self.buf = text::string_of(rest);
                    assert(self@ =~= (AnswerV { buf: at.buf.skip(i + 1), ..at }));
                    match parse_line(self.wire, text::string_of(line).as_str()) {
                        Err(e) => {
                            assert(before + Seq::<EmitV>::empty() =~= before);
                            return (out, Some(e));
                        },
                        Ok(l) => {
                            let ghost lv = l@;
                            let ghost mid = self@;
                            let mut more = self.accept(l, false);
                            let ghost f = mid.after_line(lv, false);
                            let ghost (o0, m0) = (out@, more@);
                            out.append(&mut more);
                            proof {
                                assert(out@ =~= o0 + m0);
                                assert(rows::vals(out@) =~= before + f.emits);
                                let g = self@.read_lines();
                                assert(AnswerV { buf: mid.buf, ..f.answer } =~= self@);
                                assert(at.read_lines() == (FedV { emits: f.emits + g.emits, ..g }));
                                assert(before + (f.emits + g.emits) =~= before + f.emits + g.emits);
                                assert(whole =~= (FedV {
                                    emits: rows::vals(out@) + g.emits,
                                    ..g
                                }));
                            }
                        },
                    }
                },
            }
        }
        assert(rows::vals(out@) + Seq::<EmitV>::empty() =~= rows::vals(out@));
        (out, None)
    }

    /// Takes more bytes of the stream.
    pub fn feed(&mut self, chunk: &[u8]) -> (r: (Vec<Emit>, Option<LlmError>))
        ensures
            (FedV { answer: final(self)@, emits: rows::vals(r.0@), error: decode_error(r.1) })
                == old(self)@.fed(decode::utf8_lossy(chunk@)),
    {
        let t = decode::lossy_text(chunk);
        self.feed_text(t.as_str())
    }

    /// Takes note that the stream is over.
    pub fn end(&mut self) -> (r: (Vec<Emit>, Option<LlmError>))
        ensures
            (FedV { answer: final(self)@, emits: rows::vals(r.0@), error: decode_error(r.1) })
                == old(self)@.ended(),
    {
        match parse_line(self.wire, self.buf.as_str()) {
            Err(e) => {
                let none: Vec<Emit> = Vec::new();
                assert(rows::vals(none@) =~= Seq::empty());
                (none, Some(e))
            },
            Ok(l) => (self.accept(l, true), None),
        }
    }
}

// ---- laws ------------------------------------------------------------------------------------

/// The answer in what was passed on.
pub open spec fn answer_in(v: Seq<EmitV>) -> Seq<char>
    decreases v.len(),
{
    if v.len() == 0 {
        Seq::empty()
    } else {
        match v.last() {
            EmitV::Token(s) => answer_in(v.drop_last()) + s,
            EmitV::Reasoning(_) => answer_in(v.drop_last()),
        }
    }
}

proof fn lemma_answer_in_concat(a: Seq<EmitV>, b: Seq<EmitV>)
    ensures
        answer_in(a + b) == answer_in(a) + answer_in(b),
    decreases b.len(),
{
    if b.len() == 0 {
        assert(a + b =~= a);
        assert(answer_in(a) + answer_in(b) =~= answer_in(a));
    } else {
        lemma_answer_in_concat(a, b.drop_last());
        assert((a + b).drop_last() =~= a + b.drop_last());
        assert((a + b).last() == b.last());
        if let EmitV::Token(s) = b.last() {
            assert(answer_in(a) + answer_in(b.drop_last()) + s =~= answer_in(a) + (answer_in(
                b.drop_last(),
            ) + s));
        }
    }
}

proof fn lemma_answer_in_token(s: Seq<char>)
    ensures
        answer_in(token(s)) == s,
        answer_in(reasoning(s)) == Seq::<char>::empty(),
{
    reveal_with_fuel(answer_in, 2);
    if s.len() == 0 {
        assert(s =~= Seq::empty());
    } else {
        assert(token(s).drop_last() =~= Seq::empty());
        assert(reasoning(s).drop_last() =~= Seq::empty());
        assert(Seq::<char>::empty() + s =~= s);
    }
}

proof fn lemma_line_adds_up(a: AnswerV, l: LineV, last: bool)
    ensures
        a.after_line(l, last).answer.full == a.full + answer_in(a.after_line(l, last).emits),
{
    let thought = match l.reasoning {
        Some(r) => reasoning(r),
        None => Seq::empty(),
    };
    match l.reasoning {
        Some(r) => lemma_answer_in_token(r),
        None => {},
    }
    assert(answer_in(thought) =~= Seq::empty());
    let b = (AnswerV { usage: used(a.usage, l), ..a }).with_content(l.content);
    if let Some(c) = l.content {
        let s = think::split(a.in_think, a.held + c);
        lemma_answer_in_token(s.reasoning);
        lemma_answer_in_token(s.content);
        lemma_answer_in_concat(reasoning(s.reasoning), token(s.content));
        assert(answer_in(b.emits) =~= s.content);
    } else {
        assert(answer_in(b.emits) =~= Seq::empty());
    }
    assert(b.answer.full =~= a.full + answer_in(b.emits));
    lemma_answer_in_concat(thought, b.emits);
    assert(answer_in(thought + b.emits) =~= answer_in(b.emits));
    let rest = if b.answer.in_think {
        Seq::empty()
    } else {
        b.answer.held
    };
    lemma_answer_in_token(rest);
    lemma_answer_in_concat(thought + b.emits, token(rest));
    assert(a.full + answer_in(b.emits) + rest =~= a.full + (answer_in(b.emits) + rest));
}

/// The answer is exactly what was passed on as answer, however the stream was cut.
pub proof fn answer_is_what_was_passed_on(a: AnswerV)
    ensures
        a.read_lines().answer.full == a.full + answer_in(a.read_lines().emits),
        a.ended().answer.full == a.full + answer_in(a.ended().emits),
    decreases a.buf.len(),
{
    let f = a.read_lines();
    if a.done {
        assert(f.answer.full =~= a.full + answer_in(f.emits));
    } else {
        text::lemma_find_from(a.buf, seq!['\n'], 0);
        match text::find(a.buf, seq!['\n']) {
            None => {
                assert(f.answer.full =~= a.full + answer_in(f.emits));
            },
            Some(i) => {
                let rest = AnswerV { buf: a.buf.skip(i + 1), ..a };
                match line_of(a.wire, a.buf.take(i + 1)) {
                    Err(_) => {
                        assert(f.answer.full =~= a.full + answer_in(f.emits));
                    },
                    Ok(l) => {
                        let x = rest.after_line(l, false);
                        let next = AnswerV { buf: rest.buf, ..x.answer };
                        lemma_line_adds_up(rest, l, false);
                        answer_is_what_was_passed_on(next);
                        lemma_answer_in_concat(x.emits, next.read_lines().emits);
                        assert(f.answer.full =~= a.full + answer_in(f.emits));
                    },
                }
            },
        }
    }
    match line_of(a.wire, a.buf) {
        Err(_) => {
            assert(a.ended().answer.full =~= a.full + answer_in(a.ended().emits));
        },
        Ok(l) => lemma_line_adds_up(a, l, true),
    }
}

/// How a stream is cut does not matter: read in two stretches, of which the first neither ends the
/// answer nor fails, it gives what it gives read at once.
pub proof fn stream_cuts_do_not_matter(a: AnswerV, t: Seq<char>, u: Seq<char>)
    requires
        !a.fed(t).answer.done,
        a.fed(t).error is None,
    ensures
        ({
            let first = a.fed(t);
            let second = first.answer.fed(u);
            a.fed(t + u) == (FedV { emits: first.emits + second.emits, ..second })
        }),
{
    let x = AnswerV { buf: a.buf + t, ..a };
    assert(a.buf + (t + u) =~= a.buf + t + u);
    lemma_read_more(x, u);
}

proof fn lemma_read_more(a: AnswerV, u: Seq<char>)
    requires
        !a.read_lines().answer.done,
        a.read_lines().error is None,
    ensures
        ({
            let first = a.read_lines();
            let second = first.answer.fed(u);
            (AnswerV { buf: a.buf + u, ..a }).read_lines() == (FedV {
                emits: first.emits + second.emits,
                ..second
            })
        }),
    decreases a.buf.len(),
{
    let nl = seq!['\n'];
    let first = a.read_lines();
    let second = first.answer.fed(u);
    let b = AnswerV { buf: a.buf + u, ..a };
    text::lemma_find_from(a.buf, nl, 0);
    match text::find(a.buf, nl) {
        None => {
            assert(first.emits + second.emits =~= second.emits);
        },
        Some(i) => {
            assert((a.buf + u).subrange(i, i + 1) =~= a.buf.subrange(i, i + 1));
            assert forall|j: int| 0 <= j < i implies !#[trigger] text::occurs_at(
                a.buf + u,
                nl,
                j,
            ) by {
                assert((a.buf + u).subrange(j, j + 1) =~= a.buf.subrange(j, j + 1));
                assert(!text::occurs_at(a.buf, nl, j));
            }
            text::lemma_find_from(a.buf + u, nl, 0);
            assert(text::occurs_at(a.buf + u, nl, i));
            assert(text::find(a.buf + u, nl) == Some(i));
            assert((a.buf + u).take(i + 1) =~= a.buf.take(i + 1));
            assert((a.buf + u).skip(i + 1) =~= a.buf.skip(i + 1) + u);
            let rest = AnswerV { buf: a.buf.skip(i + 1), ..a };
            let more = AnswerV { buf: a.buf.skip(i + 1) + u, ..a };
            match line_of(a.wire, a.buf.take(i + 1)) {
                Err(_) => {},
                Ok(l) => {
                    let f = rest.after_line(l, false);
                    let g = more.after_line(l, false);
                    assert(g.emits == f.emits);
                    let next = AnswerV { buf: rest.buf, ..f.answer };
                    assert(AnswerV { buf: more.buf, ..g.answer } =~= (AnswerV {
                        buf: next.buf + u,
                        ..next
                    }));
                    lemma_read_more(next, u);
                    let n1 = next.read_lines();
                    assert(f.emits + n1.emits + second.emits =~= f.emits + (n1.emits
                        + second.emits));
                },
            }
        },
    }
}

} // verus!
