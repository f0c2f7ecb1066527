//! The text of a book as its reader shows it, and whether a cited passage is found in it.
use vstd::prelude::*;
use crate::book::{BlockV, BookDoc};
use crate::citemetric;
use crate::pattern;
use crate::rows;
use crate::sections;
use crate::text;
use crate::unicode;

verus! {

// ---- markdown --------------------------------------------------------------------------------

/// A line of Markdown: as it stands, without the whitespace at its end, whether it fences code, and
/// the text of a heading or a list item.
#[derive(Debug)]
pub struct MdLine {
    pub raw: String,
    pub line: String,
    pub fence: bool,
    pub item: Option<String>,
}

/// What an [`MdLine`] holds.
#[verifier::ext_equal]
pub struct MdLineV {
    pub raw: Seq<char>,
    pub line: Seq<char>,
    pub fence: bool,
    pub item: Option<Seq<char>>,
}

impl View for MdLine {
    type V = MdLineV;

    open spec fn view(&self) -> MdLineV {
        MdLineV {
            raw: self.raw@,
            line: self.line@,
            fence: self.fence,
            item: text::opt_text(self.item),
        }
    }
}

/// The text of a heading, a bullet or a numbered item, if a line is one.
pub open spec fn item_text(line: Seq<char>) -> Option<Seq<char>> {
    match pattern::regex_group(pattern::MD_HEADING@, line, 1) {
        Some(t) => Some(t),
        None => match pattern::regex_group(pattern::MD_BULLET@, line, 1) {
            Some(t) => Some(t),
            None => pattern::regex_group(pattern::MD_NUMBERED@, line, 1),
        },
    }
}

/// A line as it is read.
pub open spec fn md_line(raw: Seq<char>) -> MdLineV {
    let line = text::rtrim(raw);
    MdLineV {
        raw,
        line,
        fence: text::starts(text::ltrim(line), "```"@),
        item: item_text(line),
    }
}

/// Markdown being read into blocks.
#[verifier::ext_equal]
pub struct MdV {
    pub blocks: Seq<Seq<char>>,
    pub para: Seq<Seq<char>>,
    pub in_code: bool,
    pub code: Seq<Seq<char>>,
}

impl MdV {
    /// The paragraph at hand as a block, if there is one.
    pub open spec fn flushed(self) -> MdV {
        if self.para.len() == 0 {
            self
        } else {
            MdV {
                blocks: self.blocks.push(text::join(self.para, " "@)),
                para: Seq::empty(),
                ..self
            }
        }
    }

    /// After one more line.
    pub open spec fn after(self, l: MdLineV) -> MdV {
        if self.in_code {
            if l.fence {
                MdV {
                    blocks: self.blocks.push(text::join(self.code, "\n"@)),
                    code: Seq::empty(),
                    in_code: false,
                    ..self
                }
            } else {
                MdV { code: self.code.push(l.raw), ..self }
            }
        } else if l.fence {
            MdV { in_code: true, ..self.flushed() }
        } else {
            match l.item {
                Some(t) => {
                    let f = self.flushed();
                    MdV { blocks: f.blocks.push(t), ..f }
                },
                None => if text::trim(l.line).len() == 0 {
                    self.flushed()
                } else {
                    MdV { para: self.para.push(l.line), ..self }
                },
            }
        }
    }

    /// The blocks once every line is read: code without an end and the paragraph at hand count.
    pub open spec fn done(self) -> Seq<Seq<char>> {
        let a = if self.in_code {
            MdV { blocks: self.blocks.push(text::join(self.code, "\n"@)), ..self }
        } else {
            self
        };
        a.flushed().blocks
    }
}

/// Markdown after some lines.
pub open spec fn md_run(lines: Seq<MdLineV>) -> MdV
    decreases lines.len(),
{
    if lines.len() == 0 {
        MdV { blocks: Seq::empty(), para: Seq::empty(), in_code: false, code: Seq::empty() }
    } else {
        md_run(lines.drop_last()).after(lines.last())
    }
}

fn flush(blocks: &mut Vec<String>, para: &mut Vec<String>)
    ensures
        text::texts(final(para)@) == Seq::<Seq<char>>::empty(),
        text::texts(final(blocks)@) == (if old(para)@.len() == 0 {
            text::texts(old(blocks)@)
        } else {
            text::texts(old(blocks)@).push(text::join(text::texts(old(para)@), " "@))
        }),
{
    if para.len() > 0 {
        let b = text::join_strs(para, " ");
        proof {
            text::lemma_texts_push(blocks@, b);
        }
        blocks.push(b);
        para.clear();
    }
    assert(text::texts(para@) =~= Seq::empty());
}

/// The blocks that lines of Markdown make: one for every heading, item, paragraph and stretch of
/// code.
pub fn blocks_of_lines(lines: &Vec<MdLine>) -> (r: Vec<String>)
    ensures
        text::texts(r@) == md_run(rows::vals(lines@)).done(),
{
    let ghost all = rows::vals(lines@);
    let mut blocks: Vec<String> = Vec::new();
    let mut para: Vec<String> = Vec::new();
    let mut code: Vec<String> = Vec::new();
    let mut in_code = false;
    assert((MdV {
        blocks: text::texts(blocks@),
        para: text::texts(para@),
        in_code,
        code: text::texts(code@),
    }) =~= md_run(all.take(0)));
    for i in 0..lines.len()
        invariant
            all == rows::vals(lines@),
            (MdV {
                blocks: text::texts(blocks@),
                para: text::texts(para@),
                in_code,
                code: text::texts(code@),
            }) == md_run(all.take(i as int)),
    {
        let l = &lines[i];
        let ghost was = md_run(all.take(i as int));
        proof {
            assert(all.take(i + 1).drop_last() =~= all.take(i as int));
            assert(all.take(i + 1).last() == l@);
            assert(text::texts(para@).len() == para@.len());
        }
        if in_code {
            if l.fence {
                let b = text::join_strs(&code, "\n");
                proof {
                    text::lemma_texts_push(blocks@, b);
                }
                blocks.push(b);
                code.clear();
                in_code = false;
                assert(text::texts(code@) =~= Seq::empty());
            } else {
                let c = l.raw.clone();
                proof {
                    text::lemma_texts_push(code@, c);
                }
                code.push(c);
            }
        } else if l.fence {
            flush(&mut blocks, &mut para);
            in_code = true;
        } else {
            match &l.item {
                Some(t) => {
                    flush(&mut blocks, &mut para);
                    let b = t.clone();
                    proof {
                        text::lemma_texts_push(blocks@, b);
                    }
                    blocks.push(b);
                },
                None => {
                    if text::trim_str(l.line.as_str()).as_str().unicode_len() == 0 {
                        flush(&mut blocks, &mut para);
                    } else {
                        let p = l.line.clone();
                        proof {
                            text::lemma_texts_push(para@, p);
                        }
                        para.push(p);
                    }
                },
            }
        }
        proof {
            if was.para.len() == 0 {
                assert(was.para =~= Seq::empty());
            }
            assert((MdV {
                blocks: text::texts(blocks@),
                para: text::texts(para@),
                in_code,
                code: text::texts(code@),
            }) =~= was.after(l@));
        }
    }
    assert(all.take(all.len() as int) =~= all);
    if in_code {
        let b = text::join_strs(&code, "\n");
        proof {
            text::lemma_texts_push(blocks@, b);
        }
        blocks.push(b);
    }
    proof {
        assert(text::texts(para@).len() == para@.len());
    }
    flush(&mut blocks, &mut para);
    blocks
}

/// Pieces and what stands between them, one after another.
pub fn interleave_of(pieces: &Vec<String>, seps: &Vec<String>) -> (r: String)
    requires
        pieces@.len() == seps@.len() + 1,
    ensures
        r@ == pattern::interleave(text::texts(pieces@), text::texts(seps@)),
{
    let ghost ps = text::texts(pieces@);
    let ghost ss = text::texts(seps@);
    let mut out = String::new();
    assert(ps.skip(0) =~= ps);
    assert(ss.skip(0) =~= ss);
    assert(out@ + pattern::interleave(ps, ss) =~= pattern::interleave(ps, ss));
    for i in 0..seps.len()
        invariant
            pieces@.len() == seps@.len() + 1,
            ps == text::texts(pieces@),
            ss == text::texts(seps@),
            out@ + pattern::interleave(ps.skip(i as int), ss.skip(i as int))
                == pattern::interleave(ps, ss),
    {
        let ghost before = out@;
        proof {
            assert(ps.skip(i as int)[0] == pieces@[i as int]@);
            assert(ss.skip(i as int)[0] == seps@[i as int]@);
            assert(ps.skip(i as int).skip(1) =~= ps.skip(i + 1));
            assert(ss.skip(i as int).skip(1) =~= ss.skip(i + 1));
        }
        out.append(pieces[i].as_str());
        out.append(seps[i].as_str());
        assert(before + pattern::interleave(ps.skip(i as int), ss.skip(i as int)) =~= out@
            + pattern::interleave(ps.skip(i + 1), ss.skip(i + 1)));
    }
    let n: usize = seps.len();
    proof {
        assert(ps.skip(n as int).len() == 1);
        assert(ps.skip(n as int)[0] == pieces@[n as int]@);
    }
    out.append(pieces[n].as_str());
    out
}

/// The text that inline markup shows: that of bold, italic and code; citations show none.
pub open spec fn shown(m: Seq<char>) -> Seq<char> {
    group_text(m, 1) + group_text(m, 2) + group_text(m, 3)
}

/// The text of a group of inline markup, if it has it.
pub open spec fn group_text(m: Seq<char>, g: nat) -> Seq<char> {
    match pattern::regex_group(pattern::MD_INLINE@, m, g) {
        Some(t) => t,
        None => Seq::empty(),
    }
}

/// A block as it is shown: inline markup vanishes and its text joins what is around it.
pub open spec fn shown_block(b: Seq<char>) -> Seq<char> {
    let m = pattern::regex_matches(pattern::MD_INLINE@, b);
    pattern::interleave(
        pattern::regex_split(pattern::MD_INLINE@, b),
        Seq::new(m.len(), |i: int| shown(m[i])),
    )
}

/// The blocks as they are shown, without those that show nothing.
pub open spec fn shown_blocks(v: Seq<Seq<char>>) -> Seq<Seq<char>>
    decreases v.len(),
{
    if v.len() == 0 {
        Seq::empty()
    } else {
        let before = shown_blocks(v.drop_last());
        let s = shown_block(v.last());
        if text::trim(s).len() == 0 {
            before
        } else {
            before.push(s)
        }
    }
}

/// The lines of a text, as they are read.
pub open spec fn md_lines(s: Seq<char>) -> Seq<MdLineV> {
    let raw = text::split(s, '\n');
    Seq::new(raw.len(), |i: int| md_line(raw[i]))
}

/// The blocks that a Markdown text shows.
pub open spec fn blocks_shown(s: Seq<char>) -> Seq<Seq<char>> {
    shown_blocks(md_run(md_lines(s)).done())
}

fn push_group(out: &mut String, m: &str, g: usize)
    ensures
        final(out)@ == old(out)@ + group_text(m@, g as nat),
{
    match pattern::group_of(pattern::MD_INLINE, m, g) {
        Some(t) => {
            out.append(t.as_str());
        },
        None => {
            assert(out@ + Seq::<char>::empty() =~= out@);
        },
    }
}

fn show_block(b: &str) -> (r: String)
    ensures
        r@ == shown_block(b@),
{
    let pieces = pattern::split_at_matches(pattern::MD_INLINE, b);
    let found = pattern::matches_of(pattern::MD_INLINE, b);
    let ghost m = text::texts(found@);
    let mut inner: Vec<String> = Vec::new();
    for i in 0..found.len()
        invariant
            m == text::texts(found@),
            inner@.len() == i,
            forall|k: int| 0 <= k < i ==> (#[trigger] inner@[k])@ == shown(m[k]),
    {
        assert(m[i as int] == found@[i as int]@);
        let mut s = String::new();
        push_group(&mut s, found[i].as_str(), 1);
        push_group(&mut s, found[i].as_str(), 2);
        push_group(&mut s, found[i].as_str(), 3);
        assert(s@ =~= shown(m[i as int]));
        inner.push(s);
    }
    assert(text::texts(inner@) =~= Seq::new(m.len(), |i: int| shown(m[i])));
    assert(text::texts(pieces@).len() == pieces@.len());
    interleave_of(&pieces, &inner)
}

fn read_line(raw: &str) -> (r: MdLine)
    ensures
        r@ == md_line(raw@),
{
    let v = text::chars_of(raw);
    let line = text::trim_right(&v);
    let l = text::string_of(line);
    let fence = text::starts_with(sections::trim_left(line), &text::chars_of("```"));
    let item = match pattern::group_of(pattern::MD_HEADING, l.as_str(), 1) {
        Some(t) => Some(t),
        None => match pattern::group_of(pattern::MD_BULLET, l.as_str(), 1) {
            Some(t) => Some(t),
            None => pattern::group_of(pattern::MD_NUMBERED, l.as_str(), 1),
        },
    };
    MdLine { raw: raw.to_owned(), line: l, fence, item }
}

/// The blocks that a Markdown text shows, one for every element: block markers are gone, wrapped
/// lines are joined, and inline markup leaves its text only.
pub fn md_blocks(s: &str) -> (r: Vec<String>)
    ensures
        text::texts(r@) == blocks_shown(s@),
{
    let raw = text::split_of(&text::chars_of(s), '\n');
    let ghost rs = text::texts(raw@);
    let mut lines: Vec<MdLine> = Vec::new();
    for i in 0..raw.len()
        invariant
            rs == text::texts(raw@),
            lines@.len() == i,
            forall|k: int| 0 <= k < i ==> (#[trigger] lines@[k])@ == md_line(rs[k]),
    {
        assert(rs[i as int] == raw@[i as int]@);
        lines.push(read_line(raw[i].as_str()));
    }
    assert(rows::vals(lines@) =~= md_lines(s@));
    let blocks = blocks_of_lines(&lines);
    let ghost all = text::texts(blocks@);
    let mut out: Vec<String> = Vec::new();
    assert(text::texts(out@) =~= shown_blocks(all.take(0)));
    for i in 0..blocks.len()
        invariant
            all == text::texts(blocks@),
            text::texts(out@) == shown_blocks(all.take(i as int)),
    {
        proof {
            assert(all.take(i + 1).drop_last() =~= all.take(i as int));
            assert(all.take(i + 1).last() == blocks@[i as int]@);
        }
        let b = show_block(blocks[i].as_str());
        if text::trim_str(b.as_str()).as_str().unicode_len() > 0 {
            proof {
                text::lemma_texts_push(out@, b);
            }
            out.push(b);
        }
    }
    assert(all.take(all.len() as int) =~= all);
    out
}

/// How many characters of a passage are looked for.
pub const NEEDLE_CHARS: usize = 40;

/// The first characters of a text.
pub open spec fn start_of(s: Seq<char>) -> Seq<char> {
    if s.len() <= NEEDLE_CHARS {
        s
    } else {
        s.take(NEEDLE_CHARS as int)
    }
}

/// What follows the first line of a text, if it has more than one.
pub open spec fn after_first_line(s: Seq<char>) -> Option<Seq<char>> {
    match text::find(s, seq!['\n']) {
        Some(i) => Some(s.skip(i + 1)),
        None => None,
    }
}

/// Some block in normal form contains what is looked for, which is not empty.
pub open spec fn shows(blocks: Seq<Seq<char>>, needle: Seq<char>) -> bool {
    needle.len() > 0 && exists|i: int|
        0 <= i < blocks.len() && text::contains(#[trigger] blocks[i], needle)
}

/// The blocks in normal form.
pub open spec fn normal_blocks(v: Seq<Seq<char>>) -> Seq<Seq<char>> {
    Seq::new(v.len(), |i: int| citemetric::normal_md(v[i]))
}

/// A passage is shown: its beginning, or what follows its first line, which may be a heading that is
/// shown apart.
pub open spec fn passage_shown(passage: Seq<char>, blocks: Seq<Seq<char>>) -> bool {
    ||| shows(normal_blocks(blocks), start_of(citemetric::normal_md(passage)))
    ||| after_first_line(passage) is Some && shows(
        normal_blocks(blocks),
        start_of(citemetric::normal_md(after_first_line(passage)->0)),
    )
}

/// Whether some block contains what is looked for.
pub fn shows_needle(blocks: &Vec<String>, needle: &str) -> (r: bool)
    ensures
        r == shows(text::texts(blocks@), needle@),
{
    let n = text::chars_of(needle);
    if n.len() == 0 {
        return false;
    }
    let ghost all = text::texts(blocks@);
    for i in 0..blocks.len()
        invariant
            all == text::texts(blocks@),
            n@ == needle@,
            n@.len() > 0,
            forall|k: int| 0 <= k < i ==> !text::contains(#[trigger] all[k], needle@),
    {
        assert(all[i as int] == blocks@[i as int]@);
        if text::has(&text::chars_of(blocks[i].as_str()), &n) {
            assert(text::contains(all[i as int], needle@));
            return true;
        }
    }
    false
}

fn start_of_text(s: &str) -> (r: String)
    ensures
        r@ == start_of(s@),
{
    let v = text::chars_of(s);
    if v.len() <= NEEDLE_CHARS {
        s.to_owned()
    } else {
        let head = vstd::slice::slice_subrange(v.as_slice(), 0, NEEDLE_CHARS);
        assert(head@ =~= s@.take(NEEDLE_CHARS as int));
        text::string_of(head)
    }
}

/// What more blocks show: a passage that some blocks show is shown by all that hold them, in any
/// order.
pub proof fn more_blocks_show_no_less(
    passage: Seq<char>,
    blocks: Seq<Seq<char>>,
    more: Seq<Seq<char>>,
)
    requires
        passage_shown(passage, blocks),
        forall|i: int| 0 <= i < blocks.len() ==> more.contains(#[trigger] blocks[i]),
    ensures
        passage_shown(passage, more),
{
    let full = start_of(citemetric::normal_md(passage));
    if shows(normal_blocks(blocks), full) {
        lemma_more_show(blocks, more, full);
    } else {
        lemma_more_show(
            blocks,
            more,
            start_of(citemetric::normal_md(after_first_line(passage)->0)),
        );
    }
}

proof fn lemma_more_show(blocks: Seq<Seq<char>>, more: Seq<Seq<char>>, needle: Seq<char>)
    requires
        shows(normal_blocks(blocks), needle),
        forall|i: int| 0 <= i < blocks.len() ==> more.contains(#[trigger] blocks[i]),
    ensures
        shows(normal_blocks(more), needle),
{
    let n = normal_blocks(blocks);
    let i = choose|i: int| 0 <= i < n.len() && text::contains(#[trigger] n[i], needle);
    assert(more.contains(blocks[i]));
    let j = choose|j: int| 0 <= j < more.len() && more[j] == blocks[i];
    assert(text::contains(normal_blocks(more)[j], needle));
}

/// Whether a passage is shown by the blocks of its file. Nothing shows a passage of whitespace, no
/// blocks show anything, and a block shows itself.
pub fn md_match(chunk_text: &str, blocks: &[String]) -> (r: bool)
    ensures
        r == passage_shown(chunk_text@, text::texts(blocks@)),
        citemetric::all_white(chunk_text@) ==> !r,
        blocks@.len() == 0 ==> !r,
        !citemetric::all_white(chunk_text@) && text::texts(blocks@).contains(chunk_text@) ==> r,
{
    let mut normed: Vec<String> = Vec::new();
    for i in 0..blocks.len()
        invariant
            normed@.len() == i,
            forall|k: int|
                0 <= k < i ==> (#[trigger] normed@[k])@ == citemetric::normal_md(blocks@[k]@),
    {
        normed.push(citemetric::md_norm(blocks[i].as_str()));
    }
    assert(text::texts(normed@) =~= normal_blocks(text::texts(blocks@)));
    let whole = citemetric::md_norm(chunk_text);
    let full = start_of_text(whole.as_str());
    if shows_needle(&normed, full.as_str()) {
        return true;
    }
    proof {
        if !citemetric::all_white(chunk_text@) && text::texts(blocks@).contains(chunk_text@) {
            let all = text::texts(blocks@);
            let k = choose|k: int| 0 <= k < all.len() && all[k] == chunk_text@;
            assert(whole@.subrange(0, full@.len() as int) =~= full@);
            assert(text::occurs_at(whole@, full@, 0));
            assert(text::contains(normal_blocks(all)[k], full@));
        }
    }
    let v = text::chars_of(chunk_text);
    let nl = ['\n'];
    assert(nl@ =~= seq!['\n']);
    match text::find_chars_from(&v, &nl, 0) {
        Some(i) => {
            let count: usize = v.len();
            let rest = vstd::slice::slice_subrange(v.as_slice(), i + 1, count);
            assert(rest@ =~= chunk_text@.skip(i + 1));
            let r = text::string_of(rest);
            proof {
                if citemetric::all_white(chunk_text@) {
                    assert forall|k: int| 0 <= k < r@.len() implies text::is_white(
                        #[trigger] r@[k],
                    ) by {
                        assert(r@[k] == chunk_text@[k + i + 1]);
                    }
                }
            }
            let needle = start_of_text(citemetric::md_norm(r.as_str()).as_str());
            shows_needle(&normed, needle.as_str())
        },
        None => false,
    }
}

// ---- books -----------------------------------------------------------------------------------

/// A block of a book for comparing: its chapter's label in normal form, its text in normal form and
/// lower case, and its page.
#[derive(Debug)]
pub struct FoldedBlock {
    pub label: Option<String>,
    pub text: String,
    pub page: Option<u32>,
}

impl View for FoldedBlock {
    type V = BlockV;

    open spec fn view(&self) -> BlockV {
        BlockV { text: self.text@, chapter: text::opt_text(self.label), page: self.page }
    }
}

/// A block for comparing.
pub open spec fn folded_block(b: BlockV) -> BlockV {
    BlockV {
        text: unicode::text_lower(citemetric::normal_text(b.text)),
        chapter: match b.chapter {
            Some(c) => Some(citemetric::normal_chapter(c)),
            None => None,
        },
        page: b.page,
    }
}

/// The blocks for comparing.
pub open spec fn folded_blocks(v: Seq<BlockV>) -> Seq<BlockV> {
    Seq::new(v.len(), |i: int| folded_block(v[i]))
}

/// The text of a book.
#[derive(Debug)]
pub struct BookText {
    /// Every label with the text of the first stretch of blocks under it.
    pub first_runs: Vec<(String, String)>,
    /// The text of the whole book.
    pub all: String,
    /// The text of every page.
    pub pages: Vec<(u32, String)>,
}

/// The texts of all blocks, each followed by a blank.
pub open spec fn all_text(v: Seq<BlockV>) -> Seq<char>
    decreases v.len(),
{
    if v.len() == 0 {
        Seq::empty()
    } else {
        all_text(v.drop_last()) + v.last().text + " "@
    }
}

/// The texts of the blocks on a page, each followed by a blank.
pub open spec fn page_text(v: Seq<BlockV>, page: u32) -> Seq<char>
    decreases v.len(),
{
    if v.len() == 0 {
        Seq::empty()
    } else if v.last().page == Some(page) {
        page_text(v.drop_last(), page) + v.last().text + " "@
    } else {
        page_text(v.drop_last(), page)
    }
}

/// The first stretches so far, and the one at hand.
#[verifier::ext_equal]
pub struct RunsV {
    pub runs: Seq<(Seq<char>, Seq<char>)>,
    pub label: Option<Seq<char>>,
    pub text: Seq<char>,
}

/// The stretch is that of a label.
pub open spec fn run_of(label: Seq<char>) -> spec_fn((Seq<char>, Seq<char>)) -> bool {
    |r: (Seq<char>, Seq<char>)| r.0 == label
}

impl RunsV {
    /// The stretch at hand ended: it counts if it is the first of its label.
    pub open spec fn ended(self) -> Seq<(Seq<char>, Seq<char>)> {
        match self.label {
            Some(l) => if rows::first_where(self.runs, run_of(l)) is Some {
                self.runs
            } else {
                self.runs.push((l, self.text))
            },
            None => self.runs,
        }
    }

    /// After one more block.
    pub open spec fn after(self, b: BlockV) -> RunsV {
        let a = if b.chapter == self.label {
            self
        } else {
            RunsV { runs: self.ended(), label: b.chapter, text: Seq::empty() }
        };
        if a.label is Some {
            RunsV { text: a.text + b.text + " "@, ..a }
        } else {
            a
        }
    }
}

/// The stretches after some blocks.
pub open spec fn runs_of(v: Seq<BlockV>) -> RunsV
    decreases v.len(),
{
    if v.len() == 0 {
        RunsV { runs: Seq::empty(), label: None, text: Seq::empty() }
    } else {
        runs_of(v.drop_last()).after(v.last())
    }
}

/// The page's text is on record under its number.
pub open spec fn page_in(v: Seq<(u32, String)>, page: u32) -> Seq<char>
    decreases v.len(),
{
    if v.len() == 0 {
        Seq::empty()
    } else if v.last().0 == page {
        v.last().1@
    } else {
        page_in(v.drop_last(), page)
    }
}

/// The book's text is that of some blocks.
pub open spec fn is_text_of(t: BookText, v: Seq<BlockV>) -> bool {
    &&& rows::vals(t.first_runs@) == runs_of(v).ended()
    &&& t.all@ == all_text(v)
    &&& pages_distinct(t.pages@)
    &&& forall|p: u32| #[trigger] is_listed(t.pages@, p) <==> occurs(v, p)
    &&& forall|p: u32| #[trigger] page_in(t.pages@, p) == page_text(v, p)
}

/// The page is on record.
pub open spec fn is_listed(v: Seq<(u32, String)>, page: u32) -> bool {
    exists|i: int| 0 <= i < v.len() && (#[trigger] v[i]).0 == page
}

/// Some block is on the page.
pub open spec fn occurs(v: Seq<BlockV>, page: u32) -> bool {
    exists|i: int| 0 <= i < v.len() && (#[trigger] v[i]).page == Some(page)
}

proof fn lemma_occurs_push(v: Seq<BlockV>, i: int, page: u32)
    requires
        0 <= i < v.len(),
    ensures
        occurs(v.take(i + 1), page) <==> occurs(v.take(i), page) || v[i].page == Some(page),
{
    let a = v.take(i);
    let b = v.take(i + 1);
    if occurs(a, page) {
        let k = choose|k: int| 0 <= k < a.len() && (#[trigger] a[k]).page == Some(page);
        assert(b[k] == a[k]);
    }
    if v[i].page == Some(page) {
        assert(b[i] == v[i]);
    }
    if occurs(b, page) {
        let k = choose|k: int| 0 <= k < b.len() && (#[trigger] b[k]).page == Some(page);
        if k < i {
            assert(a[k] == b[k]);
        }
    }
}

proof fn lemma_page_in_push(v: Seq<(u32, String)>, x: (u32, String), p: u32)
    ensures
        page_in(v.push(x), p) == (if x.0 == p {
            x.1@
        } else {
            page_in(v, p)
        }),
{
    assert(v.push(x).drop_last() =~= v);
}

/// The pages, of which none is on record twice.
pub open spec fn pages_distinct(v: Seq<(u32, String)>) -> bool {
    forall|i: int, j: int| 0 <= i < j < v.len() ==> (#[trigger] v[i]).0 != (#[trigger] v[j]).0
}

proof fn lemma_page_in_at(v: Seq<(u32, String)>, i: int)
    requires
        pages_distinct(v),
        0 <= i < v.len(),
    ensures
        page_in(v, v[i].0) == v[i].1@,
    decreases v.len(),
{
    if i < v.len() - 1 {
        assert(v[i].0 != v[v.len() - 1].0);
        lemma_page_in_at(v.drop_last(), i);
    }
}

proof fn lemma_page_in_missing(v: Seq<(u32, String)>, p: u32)
    requires
        forall|i: int| 0 <= i < v.len() ==> (#[trigger] v[i]).0 != p,
    ensures
        page_in(v, p) == Seq::<char>::empty(),
    decreases v.len(),
{
    if v.len() > 0 {
        assert(v[v.len() - 1].0 != p);
        lemma_page_in_missing(v.drop_last(), p);
    }
}

proof fn lemma_page_in_set(v: Seq<(u32, String)>, i: int, s: String, p: u32)
    requires
        pages_distinct(v),
        0 <= i < v.len(),
    ensures
        page_in(v.update(i, (v[i].0, s)), p) == (if v[i].0 == p {
            s@
        } else {
            page_in(v, p)
        }),
        pages_distinct(v.update(i, (v[i].0, s))),
    decreases v.len(),
{
    let u = v.update(i, (v[i].0, s));
    assert(pages_distinct(u)) by {
        assert forall|a: int, b: int| 0 <= a < b < u.len() implies (#[trigger] u[a]).0 != (
        #[trigger] u[b]).0 by {
            assert(v[a].0 != v[b].0);
        }
    }
    if i == v.len() - 1 {
        assert(u.drop_last() =~= v.drop_last());
    } else {
        assert(u.drop_last() =~= v.drop_last().update(i, (v.drop_last()[i].0, s)));
        lemma_page_in_set(v.drop_last(), i, s, p);
        assert(v[i].0 != v[v.len() - 1].0);
    }
}

fn find_page(v: &Vec<(u32, String)>, page: u32) -> (r: Option<usize>)
    ensures
        match r {
            Some(i) => i < v@.len() && v@[i as int].0 == page,
            None => forall|i: int| 0 <= i < v@.len() ==> (#[trigger] v@[i]).0 != page,
        },
{
    for i in 0..v.len()
        invariant
            forall|k: int| 0 <= k < i ==> (#[trigger] v@[k]).0 != page,
    {
        if v[i].0 == page {
            return Some(i);
        }
    }
    None
}

fn add_to_page(v: &mut Vec<(u32, String)>, page: u32, t: &str)
    requires
        pages_distinct(old(v)@),
    ensures
        pages_distinct(final(v)@),
        forall|p: u32| #[trigger]
            is_listed(final(v)@, p) <==> is_listed(old(v)@, p) || p == page,
        forall|p: u32| #[trigger]
            page_in(final(v)@, p) == (if p == page {
                page_in(old(v)@, p) + t@ + " "@
            } else {
                page_in(old(v)@, p)
            }),
{
    let ghost before = v@;
    match find_page(v, page) {
        Some(i) => {
            let mut s = v[i].1.clone();
            s.append(t);
            s.append(" ");
            let ghost sv = s;
            v.set(i, (page, s));
            proof {
                lemma_page_in_at(before, i as int);
                assert(v@ =~= before.update(i as int, (before[i as int].0, sv)));
                assert forall|p: u32| #[trigger]
                    page_in(v@, p) == (if p == page {
                        page_in(before, p) + t@ + " "@
                    } else {
                        page_in(before, p)
                    }) by {
                    lemma_page_in_set(before, i as int, sv, p);
                }
                lemma_page_in_set(before, i as int, sv, page);
                assert forall|p: u32| #[trigger] is_listed(v@, p) <==> is_listed(before, p) || p
                    == page by {
                    if is_listed(before, p) {
                        let k = choose|k: int| 0 <= k < before.len() && (#[trigger] before[k]).0 == p;
                        assert(v@[k].0 == p);
                    }
                    if p == page {
                        assert(v@[i as int].0 == p);
                    }
                    if is_listed(v@, p) {
                        let k = choose|k: int| 0 <= k < v@.len() && (#[trigger] v@[k]).0 == p;
                        assert(before[k].0 == p);
                    }
                }
            }
        },
        None => {
            let mut s = t.to_owned();
            s.append(" ");
            let ghost sv = s;
            v.push((page, s));
            proof {
                lemma_page_in_missing(before, page);
                assert forall|p: u32| #[trigger]
                    page_in(v@, p) == (if p == page {
                        page_in(before, p) + t@ + " "@
                    } else {
                        page_in(before, p)
                    }) by {
                    lemma_page_in_push(before, (page, sv), p);
                    if p == page {
                        assert(Seq::<char>::empty() + t@ + " "@ =~= t@ + " "@);
                    }
                }
                assert forall|a: int, b: int| 0 <= a < b < v@.len() implies (#[trigger] v@[a]).0
                    != (#[trigger] v@[b]).0 by {
                    if b < before.len() {
                        assert(before[a].0 != before[b].0);
                    }
                }
                assert forall|p: u32| #[trigger] is_listed(v@, p) <==> is_listed(before, p) || p
                    == page by {
                    if is_listed(before, p) {
                        let k = choose|k: int| 0 <= k < before.len() && (#[trigger] before[k]).0 == p;
                        assert(v@[k].0 == p);
                    }
                    if p == page {
                        assert(v@[before.len() as int].0 == p);
                    }
                    if is_listed(v@, p) {
                        let k = choose|k: int| 0 <= k < v@.len() && (#[trigger] v@[k]).0 == p;
                        if k < before.len() {
                            assert(before[k].0 == p);
                        }
                    }
                }
            }
        },
    }
}

fn end_run(runs: &mut Vec<(String, String)>, label: &Option<String>, t: &str)
    ensures
        rows::vals(final(runs)@) == (RunsV {
            runs: rows::vals(old(runs)@),
            label: text::opt_text(*label),
            text: t@,
        }).ended(),
{
    if let Some(l) = label {
        let ghost p = run_of(l@);
        let found: Option<usize> = rows::find_where(
            runs,
            |r: &(String, String)| -> (b: bool)
                ensures
                    b == p(r@)
                { text::same_text(r.0.as_str(), l.as_str()) },
            Ghost(p),
        );
        if found.is_none() {
            let x = (l.clone(), t.to_owned());
            proof {
                rows::lemma_vals_push(runs@, x);
            }
            runs.push(x);
        }
    }
}

fn same_label(a: &Option<String>, b: &Option<String>) -> (r: bool)
    ensures
        r == (text::opt_text(*a) == text::opt_text(*b)),
{
    match (a, b) {
        (Some(x), Some(y)) => text::same_text(x.as_str(), y.as_str()),
        (None, None) => true,
        _ => false,
    }
}

impl BookText {
    /// The text of some blocks.
    pub fn from_blocks(blocks: &Vec<FoldedBlock>) -> (r: Self)
        ensures
            is_text_of(r, rows::vals(blocks@)),
    {
        let ghost v = rows::vals(blocks@);
        let mut runs: Vec<(String, String)> = Vec::new();
        let mut label: Option<String> = None;
        let mut cur = String::new();
        let mut all = String::new();
        let mut pages: Vec<(u32, String)> = Vec::new();
        assert((RunsV {
            runs: rows::vals(runs@),
            label: text::opt_text(label),
            text: cur@,
        }) =~= runs_of(v.take(0)));
        assert(all@ =~= all_text(v.take(0)));
        for i in 0..blocks.len()
            invariant
                v == rows::vals(blocks@),
                (RunsV { runs: rows::vals(runs@), label: text::opt_text(label), text: cur@ })
                    == runs_of(v.take(i as int)),
                all@ == all_text(v.take(i as int)),
                pages_distinct(pages@),
                forall|p: u32| #[trigger]
                    is_listed(pages@, p) <==> occurs(v.take(i as int), p),
                forall|p: u32| #[trigger]
                    page_in(pages@, p) == page_text(v.take(i as int), p),
        {
            let b = &blocks[i];
            let ghost was = runs_of(v.take(i as int));
            proof {
                assert(v.take(i + 1).drop_last() =~= v.take(i as int));
                assert(v.take(i + 1).last() == b@);
            }
            if !same_label(&b.label, &label) {
                end_run(&mut runs, &label, cur.as_str());
                label = crate::types::copy_opt(&b.label);
                cur = String::new();
                assert(cur@ =~= Seq::empty());
            }
            if label.is_some() {
                cur.append(b.text.as_str());
                cur.append(" ");
            }
            assert((RunsV { runs: rows::vals(runs@), label: text::opt_text(label), text: cur@ })
                =~= was.after(b@));
            all.append(b.text.as_str());
            all.append(" ");
            if let Some(p) = b.page {
                add_to_page(&mut pages, p, b.text.as_str());
            }
            assert forall|p: u32| #[trigger]
                page_in(pages@, p) == page_text(v.take(i + 1), p) by {}
            assert forall|p: u32| #[trigger] is_listed(pages@, p) <==> occurs(v.take(i + 1), p) by {
                lemma_occurs_push(v, i as int, p);
            }
        }
        assert(v.take(v.len() as int) =~= v);
        end_run(&mut runs, &label, cur.as_str());
        BookText { first_runs: runs, all, pages }
    }

    /// The text of a book.
    pub fn from_doc(doc: &BookDoc) -> (r: Self)
        ensures
            is_text_of(r, folded_blocks(doc@.blocks)),
    {
        let ghost v = doc@.blocks;
        let mut blocks: Vec<FoldedBlock> = Vec::new();
        for i in 0..doc.blocks.len()
            invariant
                v == rows::vals(doc.blocks@),
                blocks@.len() == i,
                forall|k: int| 0 <= k < i ==> (#[trigger] blocks@[k])@ == folded_block(v[k]),
        {
            let b = &doc.blocks[i];
            assert(v[i as int] == b@);
            let label = match &b.chapter {
                Some(c) => Some(citemetric::norm_chapter(c.as_str())),
                None => None,
            };
            let t = citemetric::fold(citemetric::norm_text(b.text.as_str()).as_str());
            blocks.push(FoldedBlock { label, text: t, page: b.page });
        }
        assert(rows::vals(blocks@) =~= folded_blocks(v));
        BookText::from_blocks(&blocks)
    }

    /// Whether a page holds a probe.
    pub fn page_has(&self, page: u32, probe: &str) -> (r: bool)
        ensures
            r == text::contains(page_in(self.pages@, page), probe@),
    {
        let ghost all = self.pages@;
        let mut i: usize = self.pages.len();
        assert(all.take(i as int) =~= all);
        while i > 0
            invariant
                i <= self.pages@.len(),
                all == self.pages@,
                page_in(all.take(i as int), page) == page_in(all, page),
            decreases i,
        {
            assert(all.take(i as int).drop_last() =~= all.take(i - 1));
            if self.pages[i - 1].0 == page {
                return text::has(
                    &text::chars_of(self.pages[i - 1].1.as_str()),
                    &text::chars_of(probe),
                );
            }
            i = i - 1;
        }
        let none: Vec<char> = Vec::new();
        assert(none@ =~= Seq::empty());
        text::has(&none, &text::chars_of(probe))
    }

    /// Whether the book holds a probe.
    pub fn has(&self, probe: &str) -> (r: bool)
        ensures
            r == text::contains(self.all@, probe@),
    {
        text::has(&text::chars_of(self.all.as_str()), &text::chars_of(probe))
    }
}

/// A book's text is found again: what stands in a block is found on its page, and in the book.
pub proof fn blocks_are_found(v: Seq<BlockV>, i: int)
    requires
        0 <= i < v.len(),
    ensures
        text::contains(all_text(v), v[i].text),
        v[i].page is Some ==> text::contains(page_text(v, v[i].page->0), v[i].text),
    decreases v.len(),
{
    let d = v.drop_last();
    if i == v.len() - 1 {
        let a = all_text(d);
        let t = v[i].text;
        assert((a + t + " "@).subrange(a.len() as int, a.len() as int + t.len()) =~= t);
        assert(text::occurs_at(all_text(v), t, a.len() as int));
        if let Some(p) = v[i].page {
            let b = page_text(d, p);
            assert((b + t + " "@).subrange(b.len() as int, b.len() as int + t.len()) =~= t);
            assert(text::occurs_at(page_text(v, p), t, b.len() as int));
        }
    } else {
        blocks_are_found(d, i);
        lemma_contains_longer(all_text(d), v.last().text + " "@, v[i].text);
        assert(all_text(d) + (v.last().text + " "@) =~= all_text(v));
        if let Some(p) = v[i].page {
            lemma_contains_longer(page_text(d, p), v.last().text + " "@, v[i].text);
            assert(page_text(d, p) + (v.last().text + " "@) =~= page_text(d, p) + v.last().text
                + " "@);
        }
    }
}

proof fn lemma_contains_longer(a: Seq<char>, b: Seq<char>, p: Seq<char>)
    requires
        text::contains(a, p),
    ensures
        text::contains(a + b, p),
{
    let i = choose|i: int| text::occurs_at(a, p, i);
    assert((a + b).subrange(i, i + p.len()) =~= a.subrange(i, i + p.len()));
    assert(text::occurs_at(a + b, p, i));
}

// ---- outcomes --------------------------------------------------------------------------------

/// What became of a citation.
#[derive(Debug, Clone, Copy, PartialEq, Eq, Structural)]
pub enum Outcome {
    /// The passage is where the citation says.
    Direct,
    /// The passage is on a neighbouring page.
    Near,
    /// The passage is in the book, but not where the citation says.
    Located,
    /// The place is there, the passage nowhere.
    MissInChapter,
    /// Neither place nor passage is there.
    ColdMiss,
    /// The citation names no place; the passage is in the book.
    ChapterlessLocated,
    /// The citation names no place; the passage is not in the book.
    ChapterlessMiss,
    /// The format cannot be compared.
    Unverifiable,
    /// The format is shown in another way.
    UnverifiedFamily,
    ExtractTimeout,
    ExtractError,
}

/// The outcome for a book, given the stretch that its citation's chapter names.
pub open spec fn book_outcome(
    chaptered: bool,
    run: Option<Seq<char>>,
    all: Seq<char>,
    probe: Seq<char>,
) -> Outcome {
    let anywhere = text::contains(all, probe);
    if probe.len() == 0 {
        Outcome::ColdMiss
    } else if !chaptered {
        if anywhere {
            Outcome::ChapterlessLocated
        } else {
            Outcome::ChapterlessMiss
        }
    } else if run is Some && text::contains(run->0, probe) {
        Outcome::Direct
    } else if anywhere {
        Outcome::Located
    } else if run is Some {
        Outcome::MissInChapter
    } else {
        Outcome::ColdMiss
    }
}

/// The text of the stretch that a citation's chapter names.
pub open spec fn run_text(
    runs: Seq<(Seq<char>, Seq<char>)>,
    chapter: Option<Seq<char>>,
) -> Option<Seq<char>> {
    match chapter {
        None => None,
        Some(c) => match citemetric::matching_label(
            citemetric::normal_labels(Seq::new(runs.len(), |i: int| runs[i].0)),
            citemetric::normal_chapter(c),
        ) {
            Some(i) => Some(runs[i].1),
            None => None,
        },
    }
}

/// Judges a citation into a book by the stretch that its chapter names.
pub fn judge_book(chaptered: bool, run: Option<&str>, book: &BookText, probe: &str) -> (r: Outcome)
    ensures
        r == book_outcome(
            chaptered,
            (match run {
                Some(t) => Some(t@),
                None => None,
            }),
            book.all@,
            probe@,
        ),
{
    let p = text::chars_of(probe);
    if p.len() == 0 {
        return Outcome::ColdMiss;
    }
    let anywhere = book.has(probe);
    if !chaptered {
        return if anywhere {
            Outcome::ChapterlessLocated
        } else {
            Outcome::ChapterlessMiss
        };
    }
    match run {
        Some(t) => if text::has(&text::chars_of(t), &p) {
            Outcome::Direct
        } else if anywhere {
            Outcome::Located
        } else {
            Outcome::MissInChapter
        },
        None => if anywhere {
            Outcome::Located
        } else {
            Outcome::ColdMiss
        },
    }
}

/// Classifies a citation into a book with chapters.
pub fn classify_book(chapter: Option<&str>, cite_text: &str, book: &BookText) -> (r: Outcome)
    ensures
        r == book_outcome(
            chapter is Some,
            run_text(
                rows::vals(book.first_runs@),
                (match chapter {
                    Some(c) => Some(c@),
                    None => None,
                }),
            ),
            book.all@,
            unicode::text_lower(citemetric::probe(cite_text@)),
        ),
{
    let probe = citemetric::fold(citemetric::probe_of(cite_text).as_str());
    let ghost runs = rows::vals(book.first_runs@);
    match chapter {
        None => judge_book(false, None, book, probe.as_str()),
        Some(c) => {
            let mut labels: Vec<String> = Vec::new();
            for i in 0..book.first_runs.len()
                invariant
                    runs == rows::vals(book.first_runs@),
                    labels@.len() == i,
                    forall|k: int| 0 <= k < i ==> (#[trigger] labels@[k])@ == runs[k].0,
            {
                assert(runs[i as int] == book.first_runs@[i as int]@);
                labels.push(book.first_runs[i].0.clone());
            }
            assert(text::texts(labels@) =~= Seq::new(runs.len(), |i: int| runs[i].0));
            match citemetric::find_label(&labels, c) {
                Some(i) => {
                    assert(runs[i as int] == book.first_runs@[i as int]@);
                    judge_book(true, Some(book.first_runs[i].1.as_str()), book, probe.as_str())
                },
                None => judge_book(true, None, book, probe.as_str()),
            }
        },
    }
}

/// The outcome for a PDF.
pub open spec fn pdf_outcome(
    page: Option<u32>,
    book: BookText,
    probe: Seq<char>,
) -> Outcome {
    let anywhere = text::contains(book.all@, probe);
    if probe.len() == 0 {
        Outcome::ColdMiss
    } else {
        match page {
            None => if anywhere {
                Outcome::ChapterlessLocated
            } else {
                Outcome::ChapterlessMiss
            },
            Some(p) => if text::contains(page_in(book.pages@, p), probe) {
                Outcome::Direct
            } else if text::contains(
                page_in(
                    book.pages@,
                    if p == 0 {
                        0
                    } else {
                        (p - 1) as u32
                    },
                ),
                probe,
            ) || text::contains(page_in(book.pages@, (p + 1) as u32), probe) {
                Outcome::Near
            } else if anywhere {
                Outcome::Located
            } else {
                Outcome::MissInChapter
            },
        }
    }
}

/// Judges a citation into a PDF.
pub fn judge_pdf(page: Option<u32>, book: &BookText, probe: &str) -> (r: Outcome)
    requires
        page != Some(u32::MAX),
    ensures
        r == pdf_outcome(page, *book, probe@),
{
    if probe.unicode_len() == 0 {
        return Outcome::ColdMiss;
    }
    let anywhere = book.has(probe);
    match page {
        None => if anywhere {
            Outcome::ChapterlessLocated
        } else {
            Outcome::ChapterlessMiss
        },
        Some(p) => {
            let before: u32 = if p == 0 {
                0
            } else {
                p - 1
            };
            if book.page_has(p, probe) {
                Outcome::Direct
            } else if book.page_has(before, probe) || book.page_has(p + 1, probe) {
                Outcome::Near
            } else if anywhere {
                Outcome::Located
            } else {
                Outcome::MissInChapter
            }
        },
    }
}

/// Classifies a citation into a PDF: does the page still hold the passage?
pub fn classify_pdf(page: Option<u32>, cite_text: &str, book: &BookText) -> (r: Outcome)
    requires
        page != Some(u32::MAX),
    ensures
        r == pdf_outcome(page, *book, unicode::text_lower(citemetric::probe(cite_text@))),
{
    let probe = citemetric::fold(citemetric::probe_of(cite_text).as_str());
    judge_pdf(page, book, probe.as_str())
}

/// How files of a format are shown.
#[derive(Debug, Clone, Copy, PartialEq, Eq, Structural)]
pub enum Family {
    Book,
    /// Books whose extraction is not comparable.
    BookUnverifiable,
    /// Text shown as it stands in the file.
    Text,
    Pdf,
    /// Formats that are shown in another way.
    Unverified,
    Unknown,
}

/// How files of a format are shown.
pub open spec fn family_for(f: Seq<char>) -> Family {
    if f == "epub"@ || f == "fb2"@ || f == "fb2.zip"@ {
        Family::Book
    } else if f == "mobi"@ || f == "azw3"@ {
        Family::BookUnverifiable
    } else if f == "md"@ || f == "markdown"@ || f == "txt"@ || f == "text"@ {
        Family::Text
    } else if f == "pdf"@ {
        Family::Pdf
    } else if f == "html"@ || f == "htm"@ || f == "docx"@ || f == "rtf"@ || f == "odt"@ || f
        == "doc"@ || f == "pages"@ || f == "webarchive"@ || f == "djvu"@ || f == "rst"@ || f
        == "adoc"@ || f == "org"@ || f == "tex"@ || f == "ipynb"@ || f == "xps"@ {
        Family::Unverified
    } else {
        Family::Unknown
    }
}

/// How files of a format are shown.
pub fn family_of(f: &str) -> (r: Family)
    ensures
        r == family_for(f@),
{
    if text::same_text(f, "epub") || text::same_text(f, "fb2") || text::same_text(f, "fb2.zip") {
        Family::Book
    } else if text::same_text(f, "mobi") || text::same_text(f, "azw3") {
        Family::BookUnverifiable
    } else if text::same_text(f, "md") || text::same_text(f, "markdown") || text::same_text(f, "txt")
        || text::same_text(f, "text") {
        Family::Text
    } else if text::same_text(f, "pdf") {
        Family::Pdf
    } else if text::same_text(f, "html") || text::same_text(f, "htm") || text::same_text(f, "docx")
        || text::same_text(f, "rtf") || text::same_text(f, "odt") || text::same_text(f, "doc")
        || text::same_text(f, "pages") || text::same_text(f, "webarchive") || text::same_text(
        f,
        "djvu",
    ) || text::same_text(f, "rst") || text::same_text(f, "adoc") || text::same_text(f, "org")
        || text::same_text(f, "tex") || text::same_text(f, "ipynb") || text::same_text(f, "xps") {
        Family::Unverified
    } else {
        Family::Unknown
    }
}

/// The letters of a text, in order.
pub open spec fn letters_of(s: Seq<char>) -> Seq<char>
    decreases s.len(),
{
    if s.len() == 0 {
        s
    } else if unicode::char_alphabetic(s.last()) {
        letters_of(s.drop_last()).push(s.last())
    } else {
        letters_of(s.drop_last())
    }
}

/// The script of some letters: Russian where half of them or more are Cyrillic.
pub open spec fn script_for(letters: Seq<char>) -> Seq<char> {
    if letters.len() > 0 && crate::prompt::cyrillic_count(letters) * 2 >= letters.len() {
        "ru"@
    } else {
        "en"@
    }
}

/// The script of some letters.
pub fn script_of_letters(v: &[char]) -> (r: &'static str)
    ensures
        r@ == script_for(v@),
{
    let mut n: usize = 0;
    assert(v@.take(0) =~= Seq::empty());
    for i in 0..v.len()
        invariant
            n == crate::prompt::cyrillic_count(v@.take(i as int)),
            n <= i,
    {
        assert(v@.take(i + 1).drop_last() =~= v@.take(i as int));
        if '\u{0400}' <= v[i] && v[i] <= '\u{04FF}' {
            n = n + 1;
        }
    }
    assert(v@.take(v@.len() as int) =~= v@);
    if v.len() > 0 && (n as u128) * 2 >= v.len() as u128 {
        "ru"
    } else {
        "en"
    }
}

/// The script of a book, by its title.
pub fn script_of(title: &str) -> (r: &'static str)
    ensures
        r@ == script_for(letters_of(title@)),
{
    let v = text::chars_of(title);
    let mut out: Vec<char> = Vec::new();
    assert(out@ =~= letters_of(v@.take(0)));
    for i in 0..v.len()
        invariant
            out@ == letters_of(v@.take(i as int)),
    {
        assert(v@.take(i + 1).drop_last() =~= v@.take(i as int));
        if unicode::is_alphabetic(v[i]) {
            out.push(v[i]);
        }
    }
    assert(v@.take(v@.len() as int) =~= v@);
    script_of_letters(&out)
}

proof fn lemma_runs_distinct(v: Seq<BlockV>)
    ensures
        labels_distinct(runs_of(v).runs),
    decreases v.len(),
{
    if v.len() > 0 {
        lemma_runs_distinct(v.drop_last());
        lemma_ended_distinct(runs_of(v.drop_last()));
    }
}

/// The stretches, of which no two have one label.
pub open spec fn labels_distinct(v: Seq<(Seq<char>, Seq<char>)>) -> bool {
    forall|i: int, j: int| 0 <= i < j < v.len() ==> (#[trigger] v[i]).0 != (#[trigger] v[j]).0
}

proof fn lemma_ended_distinct(r: RunsV)
    requires
        labels_distinct(r.runs),
    ensures
        labels_distinct(r.ended()),
{
    if let Some(l) = r.label {
        rows::lemma_first_where(r.runs, run_of(l));
    }
}

/// Every label of a book has one first stretch.
pub proof fn first_stretches_have_distinct_labels(v: Seq<BlockV>)
    ensures
        labels_distinct(runs_of(v).ended()),
{
    lemma_runs_distinct(v);
    lemma_ended_distinct(runs_of(v));
}

} // verus!
