//! Regular expressions, through the `regex` crate.
use vstd::prelude::*;
use regex::Regex;

verus! {

/// A blank line between paragraphs.
pub const PARAGRAPH_BREAK: &'static str = "\\n[ \\t]*\\n";

/// A word split over a line break.
pub const HYPHEN_BREAK: &'static str = "(\\w)-\\n(\\w)";

/// A run of blanks.
pub const BLANKS: &'static str = "[ \\t]+";

/// More line breaks than a paragraph needs.
pub const MANY_BREAKS: &'static str = "\\n{3,}";

/// A word of ASCII letters split by a hyphen and whitespace.
pub const ASCII_HYPHEN: &'static str = "([0-9A-Za-z_])-\\s+([0-9A-Za-z_])";

/// A run of whitespace.
pub const SPACES: &'static str = "\\s+";

/// A chapter's numbered prefix, as in `Chapter 3:`.
pub const CHAPTER_PREFIX: &'static str = "(?i)^(chapter|глава|часть|part)\\s+(\\d+|[ivxlcdm]+)\\.?:?\\s+";

/// A chapter's number, as in `2.4 —`.
pub const CHAPTER_NUMBER: &'static str = "^[\\d.]+\\s*[.:—-]?\\s*";

/// A chapter's roman number, as in `IV.`.
pub const CHAPTER_ROMAN: &'static str = "(?i)^[ivxlcdm]+\\.\\s+";

/// A heading of Markdown and its text.
pub const MD_HEADING: &'static str = "^\\s*#{1,4}\\s+(.*)$";

/// A bullet of Markdown and its text.
pub const MD_BULLET: &'static str = "^\\s*[-*]\\s+(.*)$";

/// A numbered item of Markdown and its text.
pub const MD_NUMBERED: &'static str = "^\\s*\\d+\\.\\s+(.*)$";

/// Markup within a line of Markdown: bold, italic or code with its text, or a citation.
pub const MD_INLINE: &'static str = "\\*\\*([^*]+)\\*\\*|\\*([^*]+)\\*|`([^`]+)`|\\[[\\d,\\s]+\\]";

/// The patterns this library uses. Each is a valid expression of the `regex` crate's syntax.
pub open spec fn is_pattern(p: Seq<char>) -> bool {
    p == PARAGRAPH_BREAK@ || p == HYPHEN_BREAK@ || p == BLANKS@ || p == MANY_BREAKS@ || p
        == ASCII_HYPHEN@ || p == SPACES@ || p == CHAPTER_PREFIX@ || p == CHAPTER_NUMBER@ || p
        == CHAPTER_ROMAN@ || p == MD_HEADING@ || p == MD_BULLET@ || p == MD_NUMBERED@ || p
        == MD_INLINE@
}

/// A blank.
pub open spec fn blank() -> spec_fn(char) -> bool {
    |c: char| c == ' ' || c == '\t'
}

/// Whitespace.
pub open spec fn white() -> spec_fn(char) -> bool {
    |c: char| crate::text::is_white(c)
}

/// A line break.
pub open spec fn line_break() -> spec_fn(char) -> bool {
    |c: char| c == '\n'
}

/// How many characters at the beginning of a text satisfy `p`.
pub open spec fn leading(s: Seq<char>, p: spec_fn(char) -> bool) -> nat {
    crate::text::until(s, |c: char| !p(c))
}

/// A text with every run of `least` or more characters that satisfy `p` replaced.
pub open spec fn runs_replaced(
    s: Seq<char>,
    p: spec_fn(char) -> bool,
    least: nat,
    with: Seq<char>,
) -> Seq<char>
    decreases s.len(),
    via runs_replaced_decreases
{
    if s.len() == 0 {
        Seq::empty()
    } else if leading(s, p) == 0 {
        seq![s[0]] + runs_replaced(s.skip(1), p, least, with)
    } else {
        let n = leading(s, p) as int;
        (if n >= least {
            with
        } else {
            s.take(n)
        }) + runs_replaced(s.skip(n), p, least, with)
    }
}

#[via_fn]
proof fn runs_replaced_decreases(
    s: Seq<char>,
    p: spec_fn(char) -> bool,
    least: nat,
    with: Seq<char>,
) {
    crate::text::lemma_until_bounds(s, |c: char| !p(c));
}

/// A letter or digit of ASCII, or an underscore.
pub open spec fn ascii_word(c: char) -> bool {
    '0' <= c <= '9' || 'A' <= c <= 'Z' || 'a' <= c <= 'z' || c == '_'
}

/// How many characters split a word of ASCII behind the first of a text: a hyphen and whitespace,
/// if a letter stands before and behind them.
pub open spec fn split_len(s: Seq<char>) -> nat {
    if s.len() > 1 && ascii_word(s[0]) && s[1] == '-' {
        let n = leading(s.skip(2), white());
        if n > 0 && n + 2 < s.len() && ascii_word(s[n as int + 2]) {
            n + 1
        } else {
            0
        }
    } else {
        0
    }
}

/// A text with words of ASCII joined that a hyphen and whitespace split; a letter joins once.
pub open spec fn ascii_joined(s: Seq<char>) -> Seq<char>
    decreases s.len(),
{
    if s.len() == 0 {
        Seq::empty()
    } else if split_len(s) == 0 {
        seq![s[0]] + ascii_joined(s.skip(1))
    } else {
        let n = split_len(s) as int;
        seq![s[0], s[n + 1]] + ascii_joined(s.skip(n + 2))
    }
}

/// How long the blank line is that a text begins with: a line break, blanks, and a line break.
pub open spec fn break_len(s: Seq<char>) -> nat {
    if s.len() > 0 && s[0] == '\n' {
        let n = leading(s.skip(1), blank());
        if n + 1 < s.len() && s[n as int + 1] == '\n' {
            n + 2
        } else {
            0
        }
    } else {
        0
    }
}

/// What stands between the blank lines of a text, behind what has been read.
pub open spec fn pieces_from(read: Seq<char>, s: Seq<char>) -> Seq<Seq<char>>
    decreases s.len(),
{
    if s.len() == 0 {
        seq![read]
    } else if break_len(s) == 0 {
        pieces_from(read.push(s[0]), s.skip(1))
    } else {
        seq![read] + pieces_from(Seq::empty(), s.skip(break_len(s) as int))
    }
}

/// What stands between the blank lines of a text.
pub open spec fn paragraph_pieces(s: Seq<char>) -> Seq<Seq<char>> {
    pieces_from(Seq::empty(), s)
}

/// The blank lines of a text.
pub open spec fn paragraph_breaks(s: Seq<char>) -> Seq<Seq<char>>
    decreases s.len(),
{
    if s.len() == 0 {
        Seq::empty()
    } else if break_len(s) == 0 {
        paragraph_breaks(s.skip(1))
    } else {
        seq![s.take(break_len(s) as int)] + paragraph_breaks(s.skip(break_len(s) as int))
    }
}

proof fn lemma_pieces_from(read: Seq<char>, s: Seq<char>)
    ensures
        pieces_from(read, s).len() == paragraph_breaks(s).len() + 1,
        interleave(pieces_from(read, s), paragraph_breaks(s)) == read + s,
    decreases s.len(),
{
    if s.len() == 0 {
        assert(read + s =~= read);
    } else if break_len(s) == 0 {
        lemma_pieces_from(read.push(s[0]), s.skip(1));
        assert(read.push(s[0]) + s.skip(1) =~= read + s);
    } else {
        let n = break_len(s) as int;
        let t = s.skip(n);
        lemma_pieces_from(Seq::empty(), t);
        let p = pieces_from(read, s);
        let b = paragraph_breaks(s);
        assert(p.skip(1) =~= pieces_from(Seq::empty(), t));
        assert(b.skip(1) =~= paragraph_breaks(t));
        assert(p[0] == read);
        assert(b[0] == s.take(n));
        assert(Seq::<char>::empty() + t =~= t);
        assert(s.take(n) + t =~= s);
        assert(read + s.take(n) + t =~= read + s);
    }
}

/// A text is what stands between its blank lines and the blank lines in turn.
pub proof fn pieces_and_breaks_are_the_text(s: Seq<char>)
    ensures
        paragraph_pieces(s).len() == paragraph_breaks(s).len() + 1,
        interleave(paragraph_pieces(s), paragraph_breaks(s)) == s,
{
    lemma_pieces_from(Seq::empty(), s);
    assert(Seq::<char>::empty() + s =~= s);
}

/// What stands between the matches of a pattern in a text.
pub uninterp spec fn regex_split(pattern: Seq<char>, text: Seq<char>) -> Seq<Seq<char>>;

/// The matches of a pattern in a text, from left to right, without overlap.
pub uninterp spec fn regex_matches(pattern: Seq<char>, text: Seq<char>) -> Seq<Seq<char>>;

/// A text with every match of a pattern replaced, `$1` and `$2` standing for the groups.
pub uninterp spec fn regex_replaced(
    pattern: Seq<char>,
    text: Seq<char>,
    with: Seq<char>,
) -> Seq<char>;

/// Pieces and the separators between them, one after another.
pub open spec fn interleave(pieces: Seq<Seq<char>>, seps: Seq<Seq<char>>) -> Seq<char>
    decreases pieces.len(),
{
    if pieces.len() == 0 {
        Seq::empty()
    } else if pieces.len() == 1 || seps.len() == 0 {
        pieces[0]
    } else {
        pieces[0] + seps[0] + interleave(pieces.skip(1), seps.skip(1))
    }
}

/// The pieces of a text between the matches of a pattern (`Regex::split`): a function of pattern and
/// text, named here; there is always at least one piece. Those between paragraph breaks are what
/// stands between blank lines.
#[verifier::external_body]
pub(crate) fn split_at_matches(pattern: &str, text: &str) -> (r: Vec<String>)
    requires
        is_pattern(pattern@),
    ensures
        crate::text::texts(r@) == regex_split(pattern@, text@),
        r@.len() > 0,
        pattern@ == PARAGRAPH_BREAK@ ==> crate::text::texts(r@) == paragraph_pieces(text@),
{
    let re = Regex::new(pattern).unwrap();
    re.split(text).map(|s| s.to_string()).collect()
}

/// The matches of a pattern in a text (`Regex::find_iter`): a function of pattern and text, named
/// here. The text is its pieces and its matches in turn. The paragraph breaks are the blank lines.
#[verifier::external_body]
pub(crate) fn matches_of(pattern: &str, text: &str) -> (r: Vec<String>)
    requires
        is_pattern(pattern@),
    ensures
        crate::text::texts(r@) == regex_matches(pattern@, text@),
        r@.len() + 1 == regex_split(pattern@, text@).len(),
        interleave(regex_split(pattern@, text@), crate::text::texts(r@)) == text@,
        pattern@ == PARAGRAPH_BREAK@ ==> crate::text::texts(r@) == paragraph_breaks(text@),
{
    let re = Regex::new(pattern).unwrap();
    re.find_iter(text).map(|m| m.as_str().to_string()).collect()
}

/// A text with every match of a pattern replaced (`Regex::replace_all`): a function of pattern, text
/// and replacement, named here. Runs of blanks, of whitespace and of three or more line breaks are
/// replaced as a whole, and split words of ASCII are joined by their groups.
#[verifier::external_body]
pub(crate) fn replace_all(pattern: &str, text: &str, with: &str) -> (r: String)
    requires
        is_pattern(pattern@),
    ensures
        r@ == regex_replaced(pattern@, text@, with@),
        pattern@ == BLANKS@ && with@ == " "@ ==> r@ == runs_replaced(text@, blank(), 1, " "@),
        pattern@ == SPACES@ && with@ == " "@ ==> r@ == runs_replaced(text@, white(), 1, " "@),
        pattern@ == MANY_BREAKS@ && with@ == "\n\n"@ ==> r@ == runs_replaced(
            text@,
            line_break(),
            3,
            "\n\n"@,
        ),
        pattern@ == ASCII_HYPHEN@ && with@ == "$1$2"@ ==> r@ == ascii_joined(text@),
{
    let re = Regex::new(pattern).unwrap();
    re.replace_all(text, with).into_owned()
}

/// A text with the first match of a pattern replaced.
pub uninterp spec fn regex_replaced_once(
    pattern: Seq<char>,
    text: Seq<char>,
    with: Seq<char>,
) -> Seq<char>;

/// A text with the first match of a pattern replaced (`Regex::replace`): a function of pattern, text
/// and replacement, named here.
#[verifier::external_body]
pub(crate) fn replace_once(pattern: &str, text: &str, with: &str) -> (r: String)
    requires
        is_pattern(pattern@),
    ensures
        r@ == regex_replaced_once(pattern@, text@, with@),
{
    let re = Regex::new(pattern).unwrap();
    re.replace(text, with).into_owned()
}

/// What a group of a pattern's first match in a text holds, if there is a match and the group is
/// part of it.
pub uninterp spec fn regex_group(pattern: Seq<char>, text: Seq<char>, group: nat) -> Option<
    Seq<char>,
>;

/// What a group of the first match holds (`Regex::captures`, then `Captures::get`): a function of
/// pattern, text and group, named here.
#[verifier::external_body]
pub(crate) fn group_of(pattern: &str, text: &str, group: usize) -> (r: Option<String>)
    requires
        is_pattern(pattern@),
    ensures
        crate::text::opt_text(r) == regex_group(pattern@, text@, group as nat),
{
    let re = Regex::new(pattern).unwrap();
    re.captures(text).and_then(|c| c.get(group)).map(|m| m.as_str().to_string())
}

} // verus!
