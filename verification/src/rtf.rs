//! Rich Text Format: byte escapes are decoded by the declared code page before the document is
//! parsed.
use vstd::prelude::*;
use vstd::utf8::encode_utf8;
use crate::decode;
use crate::text;

verus! {

/// A byte escape: backslash, quote and two more bytes.
pub open spec fn escape_at(b: Seq<u8>, i: int) -> bool {
    0 <= i && i + 3 < b.len() && b[i] == 0x5c && b[i + 1] == 0x27
}

/// Where a run of byte escapes ends.
pub open spec fn run_end(b: Seq<u8>, i: int) -> int
    decreases b.len() - i,
{
    if escape_at(b, i) {
        run_end(b, i + 4)
    } else {
        i
    }
}

/// The value of a hexadecimal digit.
pub open spec fn hex_value(c: u8) -> Option<u8> {
    if 0x30 <= c <= 0x39 {
        Some((c - 0x30) as u8)
    } else if 0x61 <= c <= 0x66 {
        Some((c - 0x57) as u8)
    } else if 0x41 <= c <= 0x46 {
        Some((c - 0x37) as u8)
    } else {
        None
    }
}

/// The byte that two characters give: two hexadecimal digits, or a plus sign and one; a blank where
/// they give none.
pub open spec fn escaped_byte(a: u8, b: u8) -> u8 {
    match (hex_value(a), hex_value(b)) {
        (Some(x), Some(y)) => (x * 16 + y) as u8,
        (None, Some(y)) => if a == 0x2b {
            y
        } else {
            0x20
        },
        _ => 0x20,
    }
}

/// The bytes of a run of escapes.
pub open spec fn run_bytes(b: Seq<u8>, i: int) -> Seq<u8>
    decreases b.len() - i,
{
    if escape_at(b, i) {
        seq![escaped_byte(b[i + 2], b[i + 3])] + run_bytes(b, i + 4)
    } else {
        Seq::empty()
    }
}

/// The text of a run of escapes in the code page.
pub open spec fn run_text(label: Seq<char>, bytes: Seq<u8>) -> Seq<char> {
    match decode::decoded_as(label, bytes) {
        Some(d) => d.0,
        None => Seq::empty(),
    }
}

/// The bytes from `i` on with runs of escapes decoded; other bytes stand for themselves.
pub open spec fn unescaped(label: Seq<char>, b: Seq<u8>, i: int) -> Seq<char>
    decreases b.len() - i,
{
    if i < 0 || i >= b.len() {
        Seq::empty()
    } else if escape_at(b, i) {
        proof {
            lemma_run_end(b, i);
        }
        run_text(label, run_bytes(b, i)) + unescaped(label, b, run_end(b, i))
    } else {
        seq![b[i] as char] + unescaped(label, b, i + 1)
    }
}

pub proof fn lemma_run_end(b: Seq<u8>, i: int)
    requires
        0 <= i <= b.len(),
    ensures
        i <= run_end(b, i) <= b.len(),
        escape_at(b, i) ==> i < run_end(b, i),
    decreases b.len() - i,
{
    if escape_at(b, i) {
        lemma_run_end(b, i + 4);
    }
}

/// The code page a document declares: Cyrillic where it says so, Western otherwise.
pub open spec fn code_page(t: Seq<char>) -> Seq<char> {
    if text::contains(t, "\\ansicpg1251"@) {
        "windows-1251"@
    } else {
        "windows-1252"@
    }
}

/// A document with its byte escapes decoded.
pub open spec fn rtf_source(raw: Seq<u8>) -> Seq<char> {
    let t = decode::utf8_lossy(raw);
    unescaped(code_page(t), encode_utf8(t), 0)
}

fn hex_digit(c: u8) -> (r: Option<u8>)
    ensures
        r == hex_value(c),
        r matches Some(x) ==> x < 16,
{
    if 0x30 <= c && c <= 0x39 {
        Some(c - 0x30)
    } else if 0x61 <= c && c <= 0x66 {
        Some(c - 0x57)
    } else if 0x41 <= c && c <= 0x46 {
        Some(c - 0x37)
    } else {
        None
    }
}

fn byte_of(a: u8, b: u8) -> (r: u8)
    ensures
        r == escaped_byte(a, b),
{
    match (hex_digit(a), hex_digit(b)) {
        (Some(x), Some(y)) => x * 16 + y,
        (None, Some(y)) => if a == 0x2b {
            y
        } else {
            0x20
        },
        _ => 0x20,
    }
}

/// Decodes the byte escapes of a document whose bytes and code page are given. Runs of escapes are
/// decoded together, so that multi-byte encodings survive.
pub fn unescape(label: &str, b: &[u8]) -> (r: String)
    ensures
        r@ == unescaped(label@, b@, 0),
{
    let mut out = String::new();
    let mut i: usize = 0;
    assert(out@ + unescaped(label@, b@, 0) =~= unescaped(label@, b@, 0));
    while i < b.len()
        invariant
            i <= b@.len(),
            out@ + unescaped(label@, b@, i as int) == unescaped(label@, b@, 0),
        decreases b@.len() - i,
    {
        let ghost before = out@;
        if b.len() - i > 3 && b[i] == 0x5c && b[i + 1] == 0x27 {
            let ghost start = i as int;
            let mut run: Vec<u8> = Vec::new();
            proof {
                lemma_run_end(b@, start);
            }
            assert(run@ + run_bytes(b@, start) =~= run_bytes(b@, start));
            while b.len() - i > 3 && b[i] == 0x5c && b[i + 1] == 0x27
                invariant
                    i <= b@.len(),
                    0 <= start <= i,
                    run@ + run_bytes(b@, i as int) == run_bytes(b@, start),
                    run_end(b@, i as int) == run_end(b@, start),
                decreases b@.len() - i,
            {
                let ghost so_far = run@;
                run.push(byte_of(b[i + 2], b[i + 3]));
                assert(so_far + run_bytes(b@, i as int) =~= run@ + run_bytes(b@, i + 4));
                i = i + 4;
            }
            assert(run@ + run_bytes(b@, i as int) =~= run@);
            let s = match decode::decode_as(label, &run) {
                Some(d) => d.0,
                None => String::new(),
            };
            out.append(s.as_str());
            assert(before + unescaped(label@, b@, start) =~= out@ + unescaped(
                label@,
                b@,
                i as int,
            ));
        } else {
            out.push(b[i] as char);
            assert(before + unescaped(label@, b@, i as int) =~= out@ + unescaped(
                label@,
                b@,
                i as int + 1,
            ));
            i = i + 1;
        }
    }
    assert(out@ + unescaped(label@, b@, i as int) =~= out@);
    out
}

/// Decodes the byte escapes of a document by its declared code page.
pub fn decode_rtf_escapes(raw: &[u8]) -> (r: String)
    ensures
        r@ == rtf_source(raw@),
{
    let t = decode::lossy_text(raw);
    let v = text::chars_of(t.as_str());
    let label = if text::has(&v, &text::chars_of("\\ansicpg1251")) {
        "windows-1251"
    } else {
        "windows-1252"
    };
    unescape(label, t.as_str().as_bytes())
}

/// Where a run of digits ends.
pub open spec fn digits_end(t: Seq<char>, i: int) -> int
    decreases t.len() - i,
{
    if 0 <= i < t.len() && text::is_digit(t[i]) {
        digits_end(t, i + 1)
    } else {
        i
    }
}

/// A control word starts here: a letter behind a backslash that is not escaped itself.
pub open spec fn word_at(t: Seq<char>, i: int) -> bool {
    0 <= i && i + 1 < t.len() && t[i] == '\\' && 'a' <= t[i + 1] <= 'z' && (i == 0 || t[i - 1]
        != '\\')
}

/// A character that a control word cannot hold.
pub open spec fn ends_word(c: char) -> bool {
    c == ' ' || c == '\t' || c == '\n' || c == '\r' || c == '\x0c' || c == '\\' || c == '{' || c
        == '}'
}

/// The first place from `i` on that a control word cannot hold.
pub open spec fn word_end(t: Seq<char>, i: int) -> int
    decreases t.len() - i,
{
    if 0 <= i < t.len() && !ends_word(t[i]) {
        word_end(t, i + 1)
    } else {
        i
    }
}

/// What stands behind the backslash of the word at `i`, without a semicolon at its end.
pub open spec fn word_body(t: Seq<char>, i: int) -> Seq<char> {
    let b = t.subrange(i + 1, word_end(t, i + 1));
    if b.last() == ';' {
        b.drop_last()
    } else {
        b
    }
}

/// Where the argument of a word starts: what it ends with of digits and dashes.
pub open spec fn argument_start(b: Seq<char>) -> int
    decreases b.len(),
{
    if b.len() > 0 && (text::is_digit(b.last()) || b.last() == '-') {
        argument_start(b.drop_last())
    } else {
        b.len() as int
    }
}

/// The number that an argument is: digits, with or without a dash before them, of a value that fits
/// 32 bits.
pub open spec fn argument_value(a: Seq<char>) -> Option<int> {
    let s = if a.len() > 0 && a[0] == '-' {
        1int
    } else {
        0
    };
    let n = text::digits_value(a.skip(s));
    if a.len() <= s || digits_end(a, s) != a.len() {
        None
    } else if s == 1 {
        if n <= 0x8000_0000 {
            Some(-n)
        } else {
            None
        }
    } else if n <= 0x7fff_ffff {
        Some(n as int)
    } else {
        None
    }
}

/// The name of the word at `i`.
pub open spec fn word_name(t: Seq<char>, i: int) -> Seq<char> {
    let b = word_body(t, i);
    b.take(argument_start(b))
}

/// The number of the word at `i`.
pub open spec fn word_value(t: Seq<char>, i: int) -> Option<int> {
    let b = word_body(t, i);
    argument_value(b.skip(argument_start(b)))
}

/// The unit of UTF-16 that a number names; a negative one counts down from 65536.
pub open spec fn unit_of(v: int) -> int {
    if v < 0 {
        v + 65536
    } else {
        v
    }
}

/// The word at `i` names the first half of a character.
pub open spec fn high_at(t: Seq<char>, i: int) -> bool {
    word_name(t, i) == "u"@ && match word_value(t, i) {
        Some(v) => 0xd800 <= unit_of(v) <= 0xdbff,
        None => false,
    }
}

/// The word at `i` names the second half of a character.
pub open spec fn low_at(t: Seq<char>, i: int) -> bool {
    word_name(t, i) == "u"@ && match word_value(t, i) {
        Some(v) => 0xdc00 <= unit_of(v) <= 0xdfff,
        None => false,
    }
}

/// Where line breaks and blanks end.
pub open spec fn breaks_end(t: Seq<char>, i: int) -> int
    decreases t.len() - i,
{
    if 0 <= i < t.len() && (t[i] == '\n' || t[i] == '\r' || t[i] == ' ' || t[i] == '\t') {
        breaks_end(t, i + 1)
    } else {
        i
    }
}

/// The end of what stands between two words side by side, the first of which ends at `e`: a blank
/// at most, then line breaks.
pub open spec fn gap_end(t: Seq<char>, e: int) -> int {
    let k = if 0 <= e < t.len() && (t[e] == ' ' || t[e] == '\t' || t[e] == '\r' || t[e] == '\x0c') {
        e + 1
    } else {
        e
    };
    if k < t.len() && t[k] == '\n' {
        breaks_end(t, k)
    } else {
        k
    }
}

/// How many colours a document may name; the parser numbers those of a table with 16 bits.
pub const MAX_COLORS: usize = 65534;

/// How many fallback characters there may be.
pub const MAX_FALLBACK: i64 = 999_999_999;

/// The word at `i` has no number that the parser fails on: neither the least spacing between
/// lines, which has no absolute value, nor a negative or enormous count of fallback characters.
pub open spec fn bearable(t: Seq<char>, i: int) -> bool {
    &&& word_name(t, i) == "sl"@ ==> word_value(t, i) != Some(-0x8000_0000int)
    &&& word_name(t, i) == "uc"@ ==> match word_value(t, i) {
        Some(v) => 0 <= v <= MAX_FALLBACK,
        None => true,
    }
}

/// A group starts here that the parser passes over: one marked to be ignored, or the fonts or the
/// styles.
pub open spec fn unread_group_at(t: Seq<char>, i: int) -> bool {
    let g = breaks_end(t, i + 1);
    &&& 0 <= i < t.len()
    &&& t[i] == '{' && (i == 0 || t[i - 1] != '\\')
    &&& (g + 1 < t.len() && t[g] == '\\' && t[g + 1] == '*') || (word_at(t, g) && (word_body(t, g)
        == "fonttbl"@ || word_body(t, g) == "stylesheet"@))
}

/// The end of a group, from `j` within it and so many groups of its own on.
pub open spec fn group_end(t: Seq<char>, j: int, depth: nat) -> int
    decreases t.len() - j,
{
    if j < 1 || j >= t.len() {
        j
    } else if t[j] == '{' && t[j - 1] != '\\' {
        group_end(t, j + 1, depth + 1)
    } else if t[j] == '}' && t[j - 1] != '\\' {
        if depth == 0 {
            j + 1
        } else {
            group_end(t, j + 1, (depth - 1) as nat)
        }
    } else {
        group_end(t, j + 1, depth)
    }
}

pub proof fn lemma_group_end(t: Seq<char>, j: int, depth: nat)
    ensures
        j <= group_end(t, j, depth),
        j <= t.len() ==> group_end(t, j, depth) <= t.len(),
    decreases t.len() - j,
{
    if 1 <= j < t.len() {
        if t[j] == '{' && t[j - 1] != '\\' {
            lemma_group_end(t, j + 1, depth + 1);
        } else if t[j] == '}' && t[j - 1] != '\\' {
            if depth > 0 {
                lemma_group_end(t, j + 1, (depth - 1) as nat);
            }
        } else {
            lemma_group_end(t, j + 1, depth);
        }
    }
}

/// From `i` on, halves of characters come in pairs of words side by side, no word has a number that
/// the parser fails on, and there are so many colours at most. What the parser passes over may hold
/// anything.
pub open spec fn readable_from(t: Seq<char>, i: int, colors: nat) -> bool
    decreases t.len() - i,
    via readable_from_decreases
{
    if i < 0 || i >= t.len() {
        true
    } else if unread_group_at(t, i) {
        readable_from(t, group_end(t, i + 1, 0), colors)
    } else if !word_at(t, i) {
        readable_from(t, i + 1, colors)
    } else if high_at(t, i) {
        let g = gap_end(t, word_end(t, i + 1));
        word_at(t, g) && low_at(t, g) && readable_from(t, g + 1, colors)
    } else if word_name(t, i) == "blue"@ {
        colors > 0 && readable_from(t, i + 1, (colors - 1) as nat)
    } else {
        !low_at(t, i) && bearable(t, i) && readable_from(t, i + 1, colors)
    }
}

#[via_fn]
proof fn readable_from_decreases(t: Seq<char>, i: int, colors: nat) {
    if 0 <= i < t.len() {
        lemma_gap(t, i + 1);
        lemma_group_end(t, i + 1, 0);
    }
}

/// What follows a word comes after it.
proof fn lemma_gap(t: Seq<char>, i: int)
    requires
        0 <= i,
    ensures
        i <= word_end(t, i) <= gap_end(t, word_end(t, i)),
        i <= t.len() ==> gap_end(t, word_end(t, i)) <= t.len(),
{
    lemma_word_end(t, i);
    lemma_breaks_end(t, word_end(t, i));
    lemma_breaks_end(t, word_end(t, i) + 1);
}

proof fn lemma_word_end(t: Seq<char>, i: int)
    requires
        0 <= i,
    ensures
        i <= word_end(t, i),
        i <= t.len() ==> word_end(t, i) <= t.len(),
    decreases t.len() - i,
{
    if i < t.len() && !ends_word(t[i]) {
        lemma_word_end(t, i + 1);
    }
}

proof fn lemma_breaks_end(t: Seq<char>, i: int)
    requires
        0 <= i,
    ensures
        i <= breaks_end(t, i),
        i <= t.len() ==> breaks_end(t, i) <= t.len(),
    decreases t.len() - i,
{
    if i < t.len() && (t[i] == '\n' || t[i] == '\r' || t[i] == ' ' || t[i] == '\t') {
        lemma_breaks_end(t, i + 1);
    }
}

/// A document without words that the parser fails on.
pub open spec fn readable(t: Seq<char>) -> bool {
    readable_from(t, 0, MAX_COLORS as nat)
}

/// The text of a document, or why it cannot be parsed.
pub uninterp spec fn rtf_parsed(source: Seq<char>) -> Result<Seq<char>, Seq<char>>;

/// Parses a document and takes its text (`rtf_parser::document::RtfDocument::try_from`, then
/// `get_text`): a function of the source, named here. The parser panics on halves of characters
/// that it cannot join, on the least number as a spacing between lines, on a negative or enormous
/// count of fallback characters, and on a table of more colours than 16 bits number; such sources
/// are left out.
#[verifier::external_body]
pub(crate) fn parse_rtf(source: &str) -> (r: Result<String, String>)
    requires
        readable(source@),
    ensures
        match r {
            Ok(t) => rtf_parsed(source@) == Ok::<Seq<char>, Seq<char>>(t@),
            Err(e) => rtf_parsed(source@) == Err::<Seq<char>, Seq<char>>(e@),
        },
{
    rtf_parser::document::RtfDocument::try_from(source)
        .map(|d| d.get_text())
        .map_err(|e| e.to_string())
}

/// The value of some digits, or ten thousand million where it is larger.
fn value_of_digits(d: &[char]) -> (r: u64)
    requires
        forall|k: int| 0 <= k < d@.len() ==> text::is_digit(#[trigger] d@[k]),
    ensures
        text::digits_value(d@) <= 10_000_000_000 ==> r == text::digits_value(d@),
        text::digits_value(d@) > 10_000_000_000 ==> r == 10_000_000_000,
{
    let mut acc: u64 = 0;
    assert(d@.take(0) =~= Seq::empty());
    for k in 0..d.len()
        invariant
            forall|m: int| 0 <= m < d@.len() ==> text::is_digit(#[trigger] d@[m]),
            acc <= 10_000_000_000,
            acc < 10_000_000_000 ==> acc == text::digits_value(d@.take(k as int)),
            acc == 10_000_000_000 ==> text::digits_value(d@.take(k as int)) >= 10_000_000_000,
    {
        proof {
            assert(text::is_digit(d@[k as int]));
            assert(d@.take(k + 1).drop_last() =~= d@.take(k as int));
        }
        let x: u64 = acc * 10 + text::digit_value(d[k]) as u64;
        acc = if x > 10_000_000_000 {
            10_000_000_000
        } else {
            x
        };
    }
    assert(d@.take(d@.len() as int) =~= d@);
    acc
}

fn end_of_digits(t: &[char], i: usize) -> (r: usize)
    requires
        i <= t@.len(),
    ensures
        r == digits_end(t@, i as int),
        i <= r <= t@.len(),
        forall|k: int| i <= k < r ==> text::is_digit(#[trigger] t@[k]),
{
    let mut j: usize = i;
    while j < t.len() && '0' <= t[j] && t[j] <= '9'
        invariant
            i <= j <= t@.len(),
            digits_end(t@, j as int) == digits_end(t@, i as int),
            forall|k: int| i <= k < j ==> text::is_digit(#[trigger] t@[k]),
        decreases t@.len() - j,
    {
        j = j + 1;
    }
    j
}

fn value_of_argument(a: &[char]) -> (r: Option<i64>)
    ensures
        match argument_value(a@) {
            Some(v) => r is Some && r->0 == v,
            None => r is None,
        },
{
    let negative = a.len() > 0 && a[0] == '-';
    let s: usize = if negative {
        1
    } else {
        0
    };
    if a.len() <= s || end_of_digits(a, s) != a.len() {
        return None;
    }
    let d = vstd::slice::slice_subrange(a, s, a.len());
    assert(d@ =~= a@.skip(s as int));
    let n: u64 = value_of_digits(d);
    if negative {
        if n <= 0x8000_0000 {
            Some(-(n as i64))
        } else {
            None
        }
    } else if n <= 0x7fff_ffff {
        Some(n as i64)
    } else {
        None
    }
}

fn is_word(t: &[char], i: usize) -> (r: bool)
    ensures
        r == word_at(t@, i as int),
{
    i < t.len() && t.len() - i > 1 && t[i] == '\\' && 'a' <= t[i + 1] && t[i + 1] <= 'z' && (i == 0
        || t[i - 1] != '\\')
}

fn end_of_word(t: &[char], i: usize) -> (r: usize)
    requires
        i <= t@.len(),
    ensures
        r == word_end(t@, i as int),
        i <= r <= t@.len(),
{
    let mut j: usize = i;
    while j < t.len() && !(t[j] == ' ' || t[j] == '\t' || t[j] == '\n' || t[j] == '\r' || t[j]
        == '\x0c' || t[j] == '\\' || t[j] == '{' || t[j] == '}')
        invariant
            i <= j <= t@.len(),
            word_end(t@, j as int) == word_end(t@, i as int),
        decreases t@.len() - j,
    {
        j = j + 1;
    }
    j
}

fn start_of_argument(b: &[char]) -> (r: usize)
    ensures
        r == argument_start(b@),
        r <= b@.len(),
{
    let mut j: usize = b.len();
    assert(b@.take(j as int) =~= b@);
    while j > 0 && (('0' <= b[j - 1] && b[j - 1] <= '9') || b[j - 1] == '-')
        invariant
            j <= b@.len(),
            argument_start(b@.take(j as int)) == argument_start(b@),
        decreases j,
    {
        assert(b@.take(j as int).drop_last() =~= b@.take(j - 1));
        j = j - 1;
    }
    j
}

/// What a word is to the parser.
#[derive(Debug, Clone, Copy, PartialEq, Eq)]
enum WordKind {
    High,
    Low,
    Color,
    Unbearable,
    Other,
}

/// The kind of the word at `i`.
spec fn kind_at(t: Seq<char>, i: int) -> WordKind {
    if high_at(t, i) {
        WordKind::High
    } else if low_at(t, i) {
        WordKind::Low
    } else if word_name(t, i) == "blue"@ {
        WordKind::Color
    } else if !bearable(t, i) {
        WordKind::Unbearable
    } else {
        WordKind::Other
    }
}

fn kind_of(t: &[char], i: usize) -> (r: WordKind)
    requires
        word_at(t@, i as int),
    ensures
        r == kind_at(t@, i as int),
{
    proof {
        reveal_strlit("u");
        reveal_strlit("uc");
        reveal_strlit("sl");
        reveal_strlit("blue");
    }
    let b = body_of_word(t, i);
    let a: usize = start_of_argument(b);
    let name = vstd::slice::slice_subrange(b, 0, a);
    let arg = vstd::slice::slice_subrange(b, a, b.len());
    assert(name@ =~= word_name(t@, i as int));
    assert(arg@ =~= b@.skip(a as int));
    let value = value_of_argument(arg);
    if name.len() == 1 && name[0] == 'u' {
        assert(name@ =~= "u"@);
        match value {
            Some(v) => {
                let unit: i64 = if v < 0 {
                    v + 65536
                } else {
                    v
                };
                if 0xd800 <= unit && unit <= 0xdbff {
                    WordKind::High
                } else if 0xdc00 <= unit && unit <= 0xdfff {
                    WordKind::Low
                } else {
                    WordKind::Other
                }
            },
            None => WordKind::Other,
        }
    } else if name.len() == 2 && name[0] == 'u' && name[1] == 'c' {
        assert(name@ =~= "uc"@);
        match value {
            Some(v) => if 0 <= v && v <= MAX_FALLBACK {
                WordKind::Other
            } else {
                WordKind::Unbearable
            },
            None => WordKind::Other,
        }
    } else if name.len() == 2 && name[0] == 's' && name[1] == 'l' {
        assert(name@ =~= "sl"@);
        match value {
            Some(v) => if v == -0x8000_0000 {
                WordKind::Unbearable
            } else {
                WordKind::Other
            },
            None => WordKind::Other,
        }
    } else if name.len() == 4 && name[0] == 'b' && name[1] == 'l' && name[2] == 'u' && name[3]
        == 'e' {
        assert(name@ =~= "blue"@);
        WordKind::Color
    } else {
        WordKind::Other
    }
}

/// Where the word may start that stands beside the one at `i`.
fn end_of_gap(t: &[char], i: usize) -> (r: usize)
    requires
        i < t@.len(),
    ensures
        r == gap_end(t@, word_end(t@, i + 1)),
        i < r <= t@.len(),
{
    let count: usize = t.len();
    let e: usize = end_of_word(t, i + 1);
    let k: usize = if e < t.len() && (t[e] == ' ' || t[e] == '\t' || t[e] == '\r' || t[e] == '\x0c') {
        e + 1
    } else {
        e
    };
    if k == t.len() || t[k] != '\n' {
        return k;
    }
    end_of_breaks(t, k)
}

fn end_of_breaks(t: &[char], i: usize) -> (r: usize)
    requires
        i <= t@.len(),
    ensures
        r == breaks_end(t@, i as int),
        i <= r <= t@.len(),
{
    let mut j: usize = i;
    while j < t.len() && (t[j] == '\n' || t[j] == '\r' || t[j] == ' ' || t[j] == '\t')
        invariant
            i <= j <= t@.len(),
            breaks_end(t@, j as int) == breaks_end(t@, i as int),
        decreases t@.len() - j,
    {
        j = j + 1;
    }
    j
}

/// What stands behind the backslash of the word at `i`.
fn body_of_word(t: &[char], i: usize) -> (r: &[char])
    requires
        word_at(t@, i as int),
    ensures
        r@ == word_body(t@, i as int),
{
    let count: usize = t.len();
    let e: usize = end_of_word(t, i + 1);
    proof {
        assert(!ends_word(t@[i + 1]));
        lemma_word_end(t@, i + 2);
    }
    let end: usize = if t[e - 1] == ';' {
        e - 1
    } else {
        e
    };
    let b = vstd::slice::slice_subrange(t, i + 1, end);
    assert(b@ =~= word_body(t@, i as int));
    b
}

fn starts_unread_group(t: &[char], i: usize) -> (r: bool)
    ensures
        r == unread_group_at(t@, i as int),
{
    let count: usize = t.len();
    if i >= count || t[i] != '{' || (i > 0 && t[i - 1] == '\\') {
        return false;
    }
    let g: usize = end_of_breaks(t, i + 1);
    if count - g > 1 && t[g] == '\\' && t[g + 1] == '*' {
        return true;
    }
    if !is_word(t, g) {
        return false;
    }
    let b = body_of_word(t, g);
    text::same_chars(b, &text::chars_of("fonttbl")) || text::same_chars(
        b,
        &text::chars_of("stylesheet"),
    )
}

fn end_of_group(t: &[char], i: usize) -> (r: usize)
    requires
        1 <= i <= t@.len(),
    ensures
        r == group_end(t@, i as int, 0),
        i <= r <= t@.len(),
{
    let mut j: usize = i;
    let mut depth: usize = 0;
    while j < t.len()
        invariant
            1 <= i <= j <= t@.len(),
            depth <= j,
            group_end(t@, j as int, depth as nat) == group_end(t@, i as int, 0),
        decreases t@.len() - j,
    {
        if t[j] == '{' && t[j - 1] != '\\' {
            depth = depth + 1;
        } else if t[j] == '}' && t[j - 1] != '\\' {
            if depth == 0 {
                return j + 1;
            }
            depth = depth - 1;
        }
        j = j + 1;
    }
    j
}

/// Whether a document has no words that the parser fails on.
pub fn is_readable(s: &str) -> (r: bool)
    ensures
        r == readable(s@),
{
    let t = text::chars_of(s);
    let mut i: usize = 0;
    let mut colors: usize = MAX_COLORS;
    while i < t.len()
        invariant
            t@ == s@,
            i <= t@.len(),
            readable_from(t@, i as int, colors as nat) == readable(s@),
        decreases t@.len() - i,
    {
        proof {
            reveal_strlit("u");
            reveal_strlit("blue");
            assert("u"@.len() != "blue"@.len());
        }
        if starts_unread_group(&t, i) {
            i = end_of_group(&t, i + 1);
        } else if !is_word(&t, i) {
            i = i + 1;
        } else {
            match kind_of(&t, i) {
                WordKind::High => {
                    let g: usize = end_of_gap(&t, i);
                    if !is_word(&t, g) {
                        return false;
                    }
                    match kind_of(&t, g) {
                        WordKind::Low => {
                            i = g + 1;
                        },
                        _ => {
                            return false;
                        },
                    }
                },
                WordKind::Low => {
                    return false;
                },
                WordKind::Color => {
                    if colors == 0 {
                        return false;
                    }
                    colors = colors - 1;
                    i = i + 1;
                },
                WordKind::Unbearable => {
                    return false;
                },
                WordKind::Other => {
                    i = i + 1;
                },
            }
        }
    }
    true
}

/// Why a document with words that the parser fails on has no text.
pub const UNREADABLE: &'static str = "malformed control word";

/// The text of a document whose byte escapes are decoded.
pub open spec fn rtf_text(source: Seq<char>) -> Result<Seq<char>, Seq<char>> {
    if readable(source) {
        rtf_parsed(source)
    } else {
        Err(UNREADABLE@)
    }
}

/// The text of a document whose byte escapes are decoded.
pub fn text_of_rtf(source: &str) -> (r: Result<String, String>)
    ensures
        match r {
            Ok(t) => rtf_text(source@) == Ok::<Seq<char>, Seq<char>>(t@),
            Err(e) => rtf_text(source@) == Err::<Seq<char>, Seq<char>>(e@),
        },
{
    if is_readable(source) {
        parse_rtf(source)
    } else {
        Err(UNREADABLE.to_owned())
    }
}

} // verus!
