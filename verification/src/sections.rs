//! Text files into sections: headings open them, lines fill them, and sections that are too short
//! merge into their predecessor.
use vstd::prelude::*;
use crate::book::{Block, BlockV};
use crate::rows;
use crate::text;
use crate::types;

verus! {

/// Sections of fewer characters merge into their predecessor.
pub const SECTION_FLOOR_CHARS: usize = 480;

/// A book with fewer characters than this is treated as empty (a scan, or nothing at all).
pub const MIN_BOOK_CHARS: usize = 200;

/// A heading and the text under it.
#[derive(Debug, PartialEq, Eq)]
pub struct Section {
    pub heading: Option<String>,
    pub body: String,
}

/// What a [`Section`] holds.
#[verifier::ext_equal]
pub struct SectionV {
    pub heading: Option<Seq<char>>,
    pub body: Seq<char>,
}

impl View for Section {
    type V = SectionV;

    open spec fn view(&self) -> SectionV {
        SectionV { heading: text::opt_text(self.heading), body: self.body@ }
    }
}

/// A section without heading and text: where a file begins.
pub open spec fn opening() -> SectionV {
    SectionV { heading: None, body: Seq::empty() }
}

/// The sections with more text in the last one.
pub open spec fn extended(s: Seq<SectionV>, t: Seq<char>) -> Seq<SectionV> {
    s.update(s.len() - 1, SectionV { body: s.last().body + t, ..s.last() })
}

/// The sections with a new one under the given heading.
pub open spec fn opened(s: Seq<SectionV>, heading: Seq<char>) -> Seq<SectionV> {
    s.push(SectionV { heading: Some(heading), body: Seq::empty() })
}

/// Appends text to the last section.
pub fn extend_last(v: &mut Vec<Section>, t: &str)
    requires
        old(v)@.len() > 0,
    ensures
        rows::vals(final(v)@) == extended(rows::vals(old(v)@), t@),
        final(v)@.len() == old(v)@.len(),
{
    let ghost before = v@;
    let last = v.pop();
    if let Some(mut s) = last {
        s.body.append(t);
        v.push(s);
        assert(rows::vals(v@) =~= extended(rows::vals(before), t@));
    }
}

/// Opens a section under a heading.
pub fn open_section(v: &mut Vec<Section>, heading: String)
    ensures
        rows::vals(final(v)@) == opened(rows::vals(old(v)@), heading@),
        final(v)@.len() == old(v)@.len() + 1,
{
    let s = Section { heading: Some(heading), body: String::new() };
    proof {
        rows::lemma_vals_push(v@, s);
    }
    v.push(s);
}

/// A list that holds just the opening section.
pub fn start_sections() -> (r: Vec<Section>)
    ensures
        rows::vals(r@) == seq![opening()],
        r@.len() == 1,
{
    let mut v: Vec<Section> = Vec::new();
    let s = Section { heading: None, body: String::new() };
    v.push(s);
    assert(rows::vals(v@) =~= seq![opening()]);
    v
}

/// A line-oriented markup whose headings stand on lines of their own.
#[derive(Debug, Clone, Copy, PartialEq, Eq, Structural)]
pub enum Dialect {
    Markdown,
    AsciiDoc,
    Org,
    Latex,
}

/// The text of a Markdown heading of the first two levels.
pub open spec fn md_heading(line: Seq<char>) -> Option<Seq<char>> {
    let t = text::ltrim(line);
    let h = text::until(t, not_hash()) as int;
    if 1 <= h <= 2 && t.len() > h && t[h] == ' ' && text::trim(t.skip(h + 1)).len() > 0 {
        Some(text::trim(t.skip(h + 1)))
    } else {
        None
    }
}

/// The characters other than the hash sign.
pub open spec fn not_hash() -> spec_fn(char) -> bool {
    |c: char| c != '#'
}

/// What follows the longer prefix, else the shorter, where anything follows.
pub open spec fn prefix_heading(line: Seq<char>, l1: Seq<char>, l2: Seq<char>) -> Option<Seq<char>> {
    if text::starts(line, l2) {
        non_blank(line.skip(l2.len() as int))
    } else if text::starts(line, l1) {
        non_blank(line.skip(l1.len() as int))
    } else {
        None
    }
}

/// A text without the whitespace around it, if anything is left.
pub open spec fn non_blank(s: Seq<char>) -> Option<Seq<char>> {
    if text::trim(s).len() > 0 {
        Some(text::trim(s))
    } else {
        None
    }
}

/// A comment starts here: a percent sign that is not escaped.
pub open spec fn comment_at(line: Seq<char>, i: int) -> bool {
    0 <= i < line.len() && line[i] == '%' && (i == 0 || line[i - 1] != '\\')
}

/// The line up to its first comment, known to start no earlier than `from`.
pub open spec fn uncommented(line: Seq<char>, from: int) -> Seq<char>
    decreases line.len() - from,
{
    if from < 0 || from >= line.len() {
        line
    } else if comment_at(line, from) {
        line.take(from)
    } else {
        uncommented(line, from + 1)
    }
}

/// The argument of a LaTeX command at the start of a text, if it is closed.
pub open spec fn tex_argument(t: Seq<char>, cmd: Seq<char>) -> Option<Seq<char>> {
    if text::starts(t, cmd) {
        let rest = t.skip(cmd.len() as int);
        let k = text::until(rest, text::is_char('}')) as int;
        if k < rest.len() {
            Some(text::trim(rest.take(k)))
        } else {
            None
        }
    } else {
        None
    }
}

/// The title of a chapter or section command at the start of a line.
pub open spec fn tex_heading(line: Seq<char>) -> Option<Seq<char>> {
    let t = text::ltrim(line);
    let h = match tex_argument(t, "\\chapter{"@) {
        Some(h) => Some(h),
        None => tex_argument(t, "\\section{"@),
    };
    if h is Some && h->0.len() > 0 {
        h
    } else {
        None
    }
}

/// The part of a line that counts.
pub open spec fn kept_line(d: Dialect, line: Seq<char>) -> Seq<char> {
    match d {
        Dialect::Latex => uncommented(line, 0),
        _ => line,
    }
}

/// The heading a line is, if it is one.
pub open spec fn heading_of(d: Dialect, line: Seq<char>) -> Option<Seq<char>> {
    match d {
        Dialect::Markdown => md_heading(line),
        Dialect::AsciiDoc => prefix_heading(line, "= "@, "== "@),
        Dialect::Org => prefix_heading(line, "* "@, "** "@),
        Dialect::Latex => tex_heading(uncommented(line, 0)),
    }
}

/// The sections of some lines: headings open sections, other lines go into the last.
pub open spec fn line_sections(d: Dialect, lines: Seq<Seq<char>>) -> Seq<SectionV>
    decreases lines.len(),
{
    if lines.len() == 0 {
        seq![opening()]
    } else {
        let s = line_sections(d, lines.drop_last());
        match heading_of(d, lines.last()) {
            Some(h) => opened(s, h),
            None => extended(s, kept_line(d, lines.last()).push('\n')),
        }
    }
}

fn md_heading_of(v: &[char]) -> (r: Option<String>)
    ensures
        text::opt_text(r) == md_heading(v@),
{
    let t = trim_left(v);
    let mut h: usize = 0;
    while h < t.len() && t[h] == '#'
        invariant
            h <= t@.len(),
            forall|j: int| 0 <= j < h ==> t@[j] == '#',
        decreases t@.len() - h,
    {
        h = h + 1;
    }
    proof {
        assert forall|j: int| 0 <= j < h implies !(not_hash())(#[trigger] t@[j]) by {}
        text::lemma_until(t@, not_hash(), h as int);
    }
    if 1 <= h && h <= 2 && h < t.len() && t[h] == ' ' {
        assert(t@.skip(h + 1) =~= t@.subrange(h + 1, t@.len() as int));
        let rest = text::trim_chars(vstd::slice::slice_subrange(t, h + 1, t.len()));
        if rest.len() > 0 {
            return Some(text::string_of(rest));
        }
    }
    None
}

/// The text without its leading whitespace.
pub fn trim_left(v: &[char]) -> (r: &[char])
    ensures
        r@ == text::ltrim(v@),
{
    let mut a: usize = 0;
    assert(v@.skip(0) =~= v@);
    while a < v.len() && text::white(v[a])
        invariant
            a <= v.len(),
            text::ltrim(v@.skip(a as int)) == text::ltrim(v@),
        decreases v.len() - a,
    {
        assert(v@.skip(a as int).skip(1) =~= v@.skip(a as int + 1));
        a = a + 1;
    }
    assert(v@.skip(a as int) =~= v@.subrange(a as int, v@.len() as int));
    vstd::slice::slice_subrange(v, a, v.len())
}

fn non_blank_of(v: &[char]) -> (r: Option<String>)
    ensures
        text::opt_text(r) == non_blank(v@),
{
    let t = text::trim_chars(v);
    if t.len() > 0 {
        Some(text::string_of(t))
    } else {
        None
    }
}

fn prefix_heading_of(v: &[char], l1: &str, l2: &str) -> (r: Option<String>)
    ensures
        text::opt_text(r) == prefix_heading(v@, l1@, l2@),
{
    let a = text::chars_of(l1);
    let b = text::chars_of(l2);
    if text::starts_with(v, &b) {
        assert(v@.skip(b@.len() as int) =~= v@.subrange(b@.len() as int, v@.len() as int));
        non_blank_of(vstd::slice::slice_subrange(v, b.len(), v.len()))
    } else if text::starts_with(v, &a) {
        assert(v@.skip(a@.len() as int) =~= v@.subrange(a@.len() as int, v@.len() as int));
        non_blank_of(vstd::slice::slice_subrange(v, a.len(), v.len()))
    } else {
        None
    }
}

fn strip_comment(v: &[char]) -> (r: &[char])
    ensures
        r@ == uncommented(v@, 0),
{
    let mut i: usize = 0;
    while i < v.len()
        invariant
            i <= v@.len(),
            uncommented(v@, i as int) == uncommented(v@, 0),
        decreases v@.len() - i,
    {
        if v[i] == '%' && (i == 0 || v[i - 1] != '\\') {
            assert(v@.take(i as int) =~= v@.subrange(0, i as int));
            return vstd::slice::slice_subrange(v, 0, i);
        }
        i = i + 1;
    }
    v
}

fn tex_argument_of(t: &[char], cmd: &str) -> (r: Option<String>)
    ensures
        text::opt_text(r) == tex_argument(t@, cmd@),
{
    let c = text::chars_of(cmd);
    if !text::starts_with(t, &c) {
        return None;
    }
    assert(t@.skip(c@.len() as int) =~= t@.subrange(c@.len() as int, t@.len() as int));
    let rest = vstd::slice::slice_subrange(t, c.len(), t.len());
    let mut k: usize = 0;
    while k < rest.len() && rest[k] != '}'
        invariant
            k <= rest@.len(),
            forall|j: int| 0 <= j < k ==> rest@[j] != '}',
        decreases rest@.len() - k,
    {
        k = k + 1;
    }
    proof {
        assert forall|j: int| 0 <= j < k implies !(text::is_char('}'))(#[trigger] rest@[j]) by {}
        text::lemma_until(rest@, text::is_char('}'), k as int);
    }
    if k < rest.len() {
        assert(rest@.take(k as int) =~= rest@.subrange(0, k as int));
        Some(text::string_of(text::trim_chars(vstd::slice::slice_subrange(rest, 0, k))))
    } else {
        None
    }
}

fn tex_heading_of(v: &[char]) -> (r: Option<String>)
    ensures
        text::opt_text(r) == tex_heading(v@),
{
    let t = trim_left(v);
    let h = match tex_argument_of(t, "\\chapter{") {
        Some(h) => Some(h),
        None => tex_argument_of(t, "\\section{"),
    };
    match h {
        Some(s) => if s.as_str().is_empty() {
            None
        } else {
            Some(s)
        },
        None => None,
    }
}

/// The sections of a text in a line-oriented markup.
pub fn scan_lines(d: Dialect, s: &str) -> (r: Vec<Section>)
    ensures
        rows::vals(r@) == line_sections(d, text::lines(s@)),
{
    let lines = text::lines_of(&text::chars_of(s));
    let ghost all = text::texts(lines@);
    let mut out = start_sections();
    for i in 0..lines.len()
        invariant
            all == text::texts(lines@),
            out@.len() > 0,
            rows::vals(out@) == line_sections(d, all.take(i as int)),
    {
        let line = text::chars_of(lines[i].as_str());
        proof {
            assert(all[i as int] == line@);
            assert(all.take(i as int + 1).drop_last() =~= all.take(i as int));
            assert(all.take(i as int + 1).last() == line@);
        }
        let heading = match d {
            Dialect::Markdown => md_heading_of(&line),
            Dialect::AsciiDoc => prefix_heading_of(&line, "= ", "== "),
            Dialect::Org => prefix_heading_of(&line, "* ", "** "),
            Dialect::Latex => tex_heading_of(strip_comment(&line)),
        };
        match heading {
            Some(h) => {
                open_section(&mut out, h);
            },
            None => {
                let mut kept = match d {
                    Dialect::Latex => text::string_of(strip_comment(&line)),
                    _ => lines[i].clone(),
                };
                kept.push('\n');
                extend_last(&mut out, kept.as_str());
            },
        }
    }
    assert(all.take(all.len() as int) =~= all);
    out
}

/// Markdown: `#` and `##` open a new section; deeper headings stay in the body.
pub fn scan_md(s: &str) -> (r: Vec<Section>)
    ensures
        rows::vals(r@) == line_sections(Dialect::Markdown, text::lines(s@)),
{
    scan_lines(Dialect::Markdown, s)
}

/// Every character of a text is `c`.
pub open spec fn all_are(s: Seq<char>, c: char) -> bool {
    forall|i: int| 0 <= i < s.len() ==> s[i] == c
}

/// A title with an underline of `=` or `-` on the next line, of three characters at least and no
/// shorter than the title.
pub open spec fn underlined(title: Seq<char>, under: Seq<char>) -> bool {
    let t = text::trim(title);
    let u = text::trim(under);
    &&& t.len() > 0
    &&& u.len() >= 3
    &&& u.len() >= t.len()
    &&& all_are(u, '=') || all_are(u, '-')
}

/// The sections of reStructuredText from line `i` on, after those so far.
pub open spec fn rst_sections(
    lines: Seq<Seq<char>>,
    i: int,
    so_far: Seq<SectionV>,
) -> Seq<SectionV>
    decreases lines.len() - i,
{
    if i < 0 || i >= lines.len() {
        so_far
    } else if i + 1 < lines.len() && underlined(lines[i], lines[i + 1]) {
        rst_sections(lines, i + 2, opened(so_far, text::trim(lines[i])))
    } else {
        rst_sections(lines, i + 1, extended(so_far, lines[i].push('\n')))
    }
}

fn all_same(v: &[char], c: char) -> (r: bool)
    ensures
        r == all_are(v@, c),
{
    for i in 0..v.len()
        invariant
            forall|j: int| 0 <= j < i ==> v@[j] == c,
    {
        if v[i] != c {
            return false;
        }
    }
    true
}

fn is_underlined(title: &str, under: &str) -> (r: bool)
    ensures
        r == underlined(title@, under@),
{
    let t = text::trim_str(title);
    let u = text::trim_str(under);
    let uc = text::chars_of(u.as_str());
    let n: usize = uc.len();
    let m: usize = t.as_str().unicode_len();
    m > 0 && n >= 3 && m <= n && (all_same(&uc, '=') || all_same(&uc, '-'))
}

/// reStructuredText: a non-empty line followed by an underline of `=` or `-` is a heading.
pub fn scan_rst(s: &str) -> (r: Vec<Section>)
    ensures
        rows::vals(r@) == rst_sections(text::lines(s@), 0, seq![opening()]),
{
    let lines = text::lines_of(&text::chars_of(s));
    let ghost all = text::texts(lines@);
    let mut out = start_sections();
    let mut i: usize = 0;
    while i < lines.len()
        invariant
            all == text::texts(lines@),
            out@.len() > 0,
            i <= lines@.len(),
            rst_sections(all, i as int, rows::vals(out@)) == rst_sections(all, 0, seq![opening()]),
        decreases lines@.len() - i,
    {
        assert(all[i as int] == lines@[i as int]@);
        if i + 1 < lines.len() && is_underlined(lines[i].as_str(), lines[i + 1].as_str()) {
            assert(all[i + 1] == lines@[i + 1]@);
            open_section(&mut out, text::trim_str(lines[i].as_str()));
            i = i + 2;
        } else {
            proof {
                if i + 1 < lines@.len() {
                    assert(all[i + 1] == lines@[i + 1]@);
                }
            }
            let mut line = lines[i].clone();
            line.push('\n');
            extend_last(&mut out, line.as_str());
            i = i + 1;
        }
    }
    out
}

/// AsciiDoc (`= `, `== `) and Org (`* `, `** `) headings.
pub fn scan_prefix(d: Dialect, s: &str) -> (r: Vec<Section>)
    requires
        d == Dialect::AsciiDoc || d == Dialect::Org,
    ensures
        rows::vals(r@) == line_sections(d, text::lines(s@)),
{
    scan_lines(d, s)
}

/// LaTeX: comments are stripped; chapter and section commands open sections.
pub fn scan_tex(s: &str) -> (r: Vec<Section>)
    ensures
        rows::vals(r@) == line_sections(Dialect::Latex, text::lines(s@)),
{
    scan_lines(Dialect::Latex, s)
}

/// A section is too short to stand by itself: it has fewer characters than the floor.
pub open spec fn too_small(s: SectionV) -> bool {
    s.body.len() < SECTION_FLOOR_CHARS
}

/// What a section adds to the one it merges into: its heading on a line of its own, and its text.
pub open spec fn inlined(s: SectionV) -> Seq<char> {
    match s.heading {
        Some(h) => seq!['\n'] + h + seq!['\n'] + s.body,
        None => s.body,
    }
}

/// The sections with those that are too small merged into their predecessor, which keeps its own
/// heading.
pub open spec fn floored(s: Seq<SectionV>) -> Seq<SectionV>
    decreases s.len(),
{
    if s.len() == 0 {
        s
    } else {
        let before = floored(s.drop_last());
        if before.len() > 0 && too_small(s.last()) {
            extended(before, inlined(s.last()))
        } else {
            before.push(s.last())
        }
    }
}

/// Merges sections below the floor into their predecessor.
pub fn apply_section_floor(sections: Vec<Section>) -> (r: Vec<Section>)
    ensures
        rows::vals(r@) == floored(rows::vals(sections@)),
{
    let ghost all = rows::vals(sections@);
    let mut out: Vec<Section> = Vec::new();
    assert(rows::vals(out@) =~= floored(all.take(0)));
    for i in 0..sections.len()
        invariant
            all == rows::vals(sections@),
            rows::vals(out@) == floored(all.take(i as int)),
    {
        let s = &sections[i];
        proof {
            assert(all[i as int] == s@);
            assert(all.take(i as int + 1).drop_last() =~= all.take(i as int));
            assert(all.take(i as int + 1).last() == s@);
        }
        if out.len() > 0 && s.body.as_str().unicode_len() < SECTION_FLOOR_CHARS {
            let mut more = String::new();
            if let Some(h) = &s.heading {
                more.push('\n');
                more.append(h.as_str());
                more.push('\n');
            }
            more.append(s.body.as_str());
            assert(more@ =~= inlined(s@));
            extend_last(&mut out, more.as_str());
        } else {
            let copy = Section { heading: types::copy_opt(&s.heading), body: s.body.clone() };
            proof {
                rows::lemma_vals_push(out@, copy);
            }
            out.push(copy);
        }
    }
    assert(all.take(all.len() as int) =~= all);
    out
}

/// The block of a section, if it has text; with `titled`, a heading alone makes a block too.
pub open spec fn block_of(s: SectionV, titled: bool) -> Option<BlockV> {
    let t = text::trim(s.body);
    if t.len() > 0 {
        Some(BlockV { text: t, chapter: s.heading, page: None })
    } else if titled && s.heading is Some {
        Some(BlockV { text: s.heading->0, chapter: s.heading, page: None })
    } else {
        None
    }
}

/// The blocks of some sections.
pub open spec fn blocks_of(s: Seq<SectionV>, titled: bool) -> Seq<BlockV>
    decreases s.len(),
{
    if s.len() == 0 {
        Seq::empty()
    } else {
        let before = blocks_of(s.drop_last(), titled);
        match block_of(s.last(), titled) {
            Some(b) => before.push(b),
            None => before,
        }
    }
}

/// How many characters some blocks hold.
pub open spec fn total_chars(blocks: Seq<BlockV>) -> nat
    decreases blocks.len(),
{
    if blocks.len() == 0 {
        0
    } else {
        total_chars(blocks.drop_last()) + blocks.last().text.len()
    }
}

/// The blocks of a book, or none if they hold too little text.
pub open spec fn enough(blocks: Seq<BlockV>) -> Seq<BlockV> {
    if total_chars(blocks) < MIN_BOOK_CHARS {
        Seq::empty()
    } else {
        blocks
    }
}

/// The blocks of a sectioned book: short sections merged, empty ones dropped, and nothing at all if
/// there is too little text.
pub open spec fn book_blocks(s: Seq<SectionV>, titled: bool) -> Seq<BlockV> {
    enough(blocks_of(floored(s), titled))
}

proof fn lemma_total_mono(blocks: Seq<BlockV>, i: int)
    requires
        0 <= i <= blocks.len(),
    ensures
        total_chars(blocks.take(i)) <= total_chars(blocks),
    decreases blocks.len() - i,
{
    if i < blocks.len() {
        lemma_total_mono(blocks, i + 1);
        assert(blocks.take(i + 1).drop_last() =~= blocks.take(i));
    } else {
        assert(blocks.take(i) =~= blocks);
    }
}

/// Whether blocks hold enough text for a book.
pub fn has_enough(blocks: &Vec<Block>) -> (r: bool)
    ensures
        r == (total_chars(rows::vals(blocks@)) >= MIN_BOOK_CHARS),
{
    let ghost all = rows::vals(blocks@);
    let mut total: usize = 0;
    for i in 0..blocks.len()
        invariant
            all == rows::vals(blocks@),
            total == total_chars(all.take(i as int)),
            total < MIN_BOOK_CHARS,
    {
        proof {
            assert(all[i as int] == blocks@[i as int]@);
            assert(all.take(i as int + 1).drop_last() =~= all.take(i as int));
            lemma_total_mono(all, i as int + 1);
        }
        let n: usize = text::chars_of(blocks[i].text.as_str()).len();
        if n >= MIN_BOOK_CHARS - total {
            return true;
        }
        total = total + n;
    }
    assert(all.take(all.len() as int) =~= all);
    false
}

/// The blocks, or none if they hold too little text.
pub fn keep_if_enough(blocks: Vec<Block>) -> (r: Vec<Block>)
    ensures
        rows::vals(r@) == enough(rows::vals(blocks@)),
{
    if has_enough(&blocks) {
        blocks
    } else {
        let none: Vec<Block> = Vec::new();
        assert(rows::vals(none@) =~= Seq::empty());
        none
    }
}

/// Turns sections into the blocks of a book.
pub fn sections_to_blocks(sections: Vec<Section>, titled: bool) -> (r: Vec<Block>)
    ensures
        rows::vals(r@) == book_blocks(rows::vals(sections@), titled),
{
    let merged = apply_section_floor(sections);
    let ghost all = rows::vals(merged@);
    let mut out: Vec<Block> = Vec::new();
    assert(rows::vals(out@) =~= blocks_of(all.take(0), titled));
    for i in 0..merged.len()
        invariant
            all == rows::vals(merged@),
            rows::vals(out@) == blocks_of(all.take(i as int), titled),
    {
        let s = &merged[i];
        proof {
            assert(all[i as int] == s@);
            assert(all.take(i as int + 1).drop_last() =~= all.take(i as int));
            assert(all.take(i as int + 1).last() == s@);
        }
        let body = text::trim_str(s.body.as_str());
        let block = if !body.as_str().is_empty() {
            Some(Block::new(body, types::copy_opt(&s.heading), None))
        } else if titled {
            match &s.heading {
                Some(h) => Some(Block::new(h.clone(), types::copy_opt(&s.heading), None)),
                None => None,
            }
        } else {
            None
        };
        if let Some(b) = block {
            proof {
                rows::lemma_vals_push(out@, b);
            }
            out.push(b);
        }
    }
    assert(all.take(all.len() as int) =~= all);
    keep_if_enough(out)
}

/// Every section but the first is long enough to stand by itself, once short ones are merged.
pub proof fn merged_sections_are_long_enough(s: Seq<SectionV>, k: int)
    requires
        0 < k < floored(s).len(),
    ensures
        floored(s)[k].body.len() >= SECTION_FLOOR_CHARS,
    decreases s.len(),
{
    if s.len() > 0 {
        let before = floored(s.drop_last());
        let now = floored(s);
        if before.len() > 0 && too_small(s.last()) {
            merged_sections_are_long_enough(s.drop_last(), k);
        } else {
            if k < before.len() {
                merged_sections_are_long_enough(s.drop_last(), k);
            }
        }
    }
}

/// A book with too little text has no blocks at all, and any other keeps every block.
pub proof fn short_books_are_empty(s: Seq<SectionV>, titled: bool)
    ensures
        book_blocks(s, titled).len() == 0 || total_chars(book_blocks(s, titled)) >= MIN_BOOK_CHARS,
{
}

/// Headings below the second level open no section: their text stays in the body.
pub proof fn deep_headings_stay_in_the_body(line: Seq<char>)
    requires
        text::ltrim(line).len() >= 3,
        text::ltrim(line)[0] == '#',
        text::ltrim(line)[1] == '#',
        text::ltrim(line)[2] == '#',
    ensures
        md_heading(line) is None,
        line_sections(Dialect::Markdown, seq![line]) == seq![
            SectionV { heading: None, body: line.push('\n') },
        ],
{
    let t = text::ltrim(line);
    text::lemma_until_bounds(t, not_hash());
    reveal_with_fuel(line_sections, 2);
    assert(seq![line].drop_last() =~= Seq::<Seq<char>>::empty());
    assert(opening().body + line.push('\n') =~= line.push('\n'));
    assert(line_sections(Dialect::Markdown, seq![line]) =~= seq![
        SectionV { heading: None, body: line.push('\n') },
    ]);
}

} // verus!
