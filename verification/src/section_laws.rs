//! What becomes of the lines and sections of a text: nothing of it is lost.
use vstd::prelude::*;
use crate::book::BlockV;
use crate::sections;
use crate::sections::{Dialect, SectionV};
use crate::shape;
use crate::text;

verus! {

/// The sections with another heading over the first.
pub open spec fn retitled(s: Seq<SectionV>, heading: Seq<char>) -> Seq<SectionV> {
    s.update(0, SectionV { heading: Some(heading), body: s[0].body })
}

/// Lines as they stand in a section: each with a line break behind it.
pub open spec fn as_lines(lines: Seq<Seq<char>>) -> spec_fn(int) -> Seq<char> {
    |i: int| lines[i].push('\n')
}

/// The part of each line that counts, with a line break behind it.
pub open spec fn as_kept(d: Dialect, lines: Seq<Seq<char>>) -> spec_fn(int) -> Seq<char> {
    |i: int| sections::kept_line(d, lines[i]).push('\n')
}

/// A text has its first section without a heading, and one at least.
proof fn lemma_line_sections(d: Dialect, lines: Seq<Seq<char>>)
    ensures
        sections::line_sections(d, lines).len() > 0,
        sections::line_sections(d, lines)[0].heading is None,
    decreases lines.len(),
{
    if lines.len() > 0 {
        lemma_line_sections(d, lines.drop_last());
    }
}

/// Lines without a heading among them are one section that holds them all.
pub proof fn lines_without_headings_are_one_section(d: Dialect, lines: Seq<Seq<char>>)
    requires
        forall|i: int|
            0 <= i < lines.len() ==> sections::heading_of(d, #[trigger] lines[i]) is None,
    ensures
        sections::line_sections(d, lines).len() == 1,
        sections::line_sections(d, lines)[0].heading is None,
        shape::laid(
            lines.len() as int,
            as_kept(d, lines),
            sections::line_sections(d, lines)[0].body,
        ),
    decreases lines.len(),
{
    if lines.len() == 0 {
        shape::lemma_laid_none(as_kept(d, lines));
    } else {
        let less = lines.drop_last();
        lines_without_headings_are_one_section(d, less);
        assert(lines[lines.len() - 1] == lines.last());
        assert forall|i: int| 0 <= i < less.len() implies #[trigger] as_kept(d, less)(i) == as_kept(
            d,
            lines,
        )(i) by {
            assert(less[i] == lines[i]);
        }
        shape::lemma_laid_step(
            less.len() as int,
            as_kept(d, less),
            as_kept(d, lines),
            sections::line_sections(d, less)[0].body,
        );
    }
}

/// A heading ends the sections before it and opens those of the lines behind it, the first of which
/// has it as its own.
pub proof fn headings_open_sections(
    d: Dialect,
    a: Seq<Seq<char>>,
    line: Seq<char>,
    b: Seq<Seq<char>>,
)
    requires
        sections::heading_of(d, line) is Some,
    ensures
        sections::line_sections(d, a.push(line) + b) == sections::line_sections(d, a) + retitled(
            sections::line_sections(d, b),
            sections::heading_of(d, line)->0,
        ),
    decreases b.len(),
{
    let h = sections::heading_of(d, line)->0;
    let all = a.push(line) + b;
    let sa = sections::line_sections(d, a);
    let sb = sections::line_sections(d, b);
    if b.len() == 0 {
        assert(all.drop_last() =~= a);
        assert(all.last() == line);
        assert(sections::opened(sa, h) =~= sa + retitled(sb, h));
    } else {
        let c = b.drop_last();
        headings_open_sections(d, a, line, c);
        lemma_line_sections(d, c);
        assert(all.drop_last() =~= a.push(line) + c);
        assert(all.last() == b.last());
        assert(sections::line_sections(d, all) =~= sa + retitled(sb, h));
    }
}

/// Of a line of LaTeX what stands before its first comment sign counts; only an unescaped percent
/// sign is one. Of the other dialects all of it counts.
pub proof fn comments_do_not_count(d: Dialect, line: Seq<char>)
    ensures
        d != Dialect::Latex ==> sections::kept_line(d, line) == line,
        d == Dialect::Latex ==> ({
            let k = sections::kept_line(d, line);
            &&& k.len() <= line.len()
            &&& k == line.subrange(0, k.len() as int)
            &&& forall|i: int|
                0 <= i < k.len() && #[trigger] line[i] == '%' ==> i > 0 && line[i - 1] == '\\'
            &&& k.len() < line.len() ==> line[k.len() as int] == '%' && (k.len() == 0
                || line[k.len() - 1] != '\\')
        }),
{
    lemma_uncommented(line, 0);
}

proof fn lemma_uncommented(line: Seq<char>, from: int)
    requires
        0 <= from <= line.len(),
        forall|i: int|
            0 <= i < from && #[trigger] line[i] == '%' ==> i > 0 && line[i - 1] == '\\',
    ensures
        ({
            let k = sections::uncommented(line, from);
            &&& k.len() <= line.len()
            &&& k == line.subrange(0, k.len() as int)
            &&& forall|i: int|
                0 <= i < k.len() && #[trigger] line[i] == '%' ==> i > 0 && line[i - 1] == '\\'
            &&& k.len() < line.len() ==> line[k.len() as int] == '%' && (k.len() == 0
                || line[k.len() - 1] != '\\')
        }),
    decreases line.len() - from,
{
    if from < line.len() && !sections::comment_at(line, from) {
        lemma_uncommented(line, from + 1);
    }
}

proof fn lemma_ltrim_white(a: Seq<char>, b: Seq<char>)
    requires
        forall|i: int| 0 <= i < a.len() ==> text::is_white(#[trigger] a[i]),
        b.len() > 0,
        !text::is_white(b[0]),
    ensures
        text::ltrim(a + b) == b,
    decreases a.len(),
{
    if a.len() == 0 {
        assert(a + b =~= b);
    } else {
        let c = a.skip(1);
        assert forall|i: int| 0 <= i < c.len() implies text::is_white(#[trigger] c[i]) by {
            assert(c[i] == a[i + 1]);
        }
        assert((a + b)[0] == a[0]);
        assert((a + b).skip(1) =~= c + b);
        lemma_ltrim_white(c, b);
    }
}

/// Hash signs, a space and a title, behind any whitespace, are a Markdown heading with that title
/// where the signs are one or two, and an ordinary line where they are more.
pub proof fn markdown_headings_have_one_or_two_hashes(
    before: Seq<char>,
    level: nat,
    title: Seq<char>,
)
    requires
        forall|i: int| 0 <= i < before.len() ==> text::is_white(#[trigger] before[i]),
        text::trim(title).len() > 0,
        level > 0,
    ensures
        sections::heading_of(
            Dialect::Markdown,
            before + (Seq::new(level, |i: int| '#') + " "@ + title),
        ) == if level <= 2 {
            Some(text::trim(title))
        } else {
            None
        },
{
    reveal_strlit(" ");
    let t = Seq::new(level, |i: int| '#') + " "@ + title;
    let n = level as int;
    assert(t[0] == '#');
    lemma_ltrim_white(before, t);
    assert(t[n] == ' ');
    text::lemma_until(t, sections::not_hash(), n);
    assert(t.skip(n + 1) =~= title);
}

/// A line whose first sign is no hash is no Markdown heading.
pub proof fn other_lines_are_no_markdown_headings(line: Seq<char>)
    requires
        text::ltrim(line).len() == 0 || text::ltrim(line)[0] != '#',
    ensures
        sections::heading_of(Dialect::Markdown, line) is None,
{
    let t = text::ltrim(line);
    text::lemma_until(t, sections::not_hash(), 0);
}

/// In AsciiDoc and Org a sign once or twice and a space open a heading, where a title follows; any
/// other line is none.
pub proof fn marked_lines_are_headings(line: Seq<char>, title: Seq<char>, org: bool)
    ensures
        ({
            let d = if org {
                Dialect::Org
            } else {
                Dialect::AsciiDoc
            };
            let one = if org {
                "* "@
            } else {
                "= "@
            };
            let two = if org {
                "** "@
            } else {
                "== "@
            };
            let found = if text::trim(title).len() > 0 {
                Some(text::trim(title))
            } else {
                None
            };
            &&& sections::heading_of(d, one + title) == found
            &&& sections::heading_of(d, two + title) == found
            &&& !text::starts(line, one) && !text::starts(line, two) ==> sections::heading_of(
                d,
                line,
            ) is None
        }),
{
    reveal_strlit("* ");
    reveal_strlit("** ");
    reveal_strlit("= ");
    reveal_strlit("== ");
    let one = if org {
        "* "@
    } else {
        "= "@
    };
    let two = if org {
        "** "@
    } else {
        "== "@
    };
    let a = one + title;
    let b = two + title;
    assert(a.take(2) =~= one);
    assert(a.skip(2) =~= title);
    assert(b.take(3) =~= two);
    assert(b.skip(3) =~= title);
    if text::starts(a, two) {
        assert(a.take(3)[1] == a[1]);
    }
}

/// In LaTeX a chapter or section command that is closed is a heading, where it has a title.
pub proof fn closed_commands_are_headings(title: Seq<char>, rest: Seq<char>, chapter: bool)
    requires
        text::trim(title).len() > 0,
        !title.contains('}'),
        !title.contains('%'),
        !rest.contains('%'),
    ensures
        sections::heading_of(
            Dialect::Latex,
            (if chapter {
                "\\chapter{"@
            } else {
                "\\section{"@
            }) + (title.push('}') + rest),
        ) == Some(text::trim(title)),
{
    reveal_strlit("\\chapter{");
    reveal_strlit("\\section{");
    let cmd = if chapter {
        "\\chapter{"@
    } else {
        "\\section{"@
    };
    let arg = title.push('}') + rest;
    let line = cmd + arg;
    let n = cmd.len() as int;
    lemma_uncommented(line, 0);
    let k = sections::uncommented(line, 0);
    if k.len() < line.len() {
        let i = k.len() as int;
        if i < n {
            assert(line[i] == cmd[i]);
        } else if i < n + title.len() {
            assert(line[i] == title[i - n]);
        } else if i == n + title.len() {
            assert(line[i] == '}');
        } else {
            assert(line[i] == rest[i - n - title.len() - 1]);
        }
    }
    assert(k =~= line);
    assert(line[0] == '\\');
    assert(text::ltrim(line) == line);
    assert(line.take(n) =~= cmd);
    assert(line.skip(n) =~= arg);
    let t = title.len() as int;
    assert forall|j: int| 0 <= j < t implies !text::is_char('}')(#[trigger] arg[j]) by {
        assert(arg[j] == title[j]);
    }
    assert(arg[t] == '}');
    text::lemma_until(arg, text::is_char('}'), t);
    assert(arg.take(t) =~= title);
    if !chapter {
        let other = "\\chapter{"@;
        if text::starts(line, other) {
            assert(line.take(9)[1] == line[1]);
        }
    }
}

proof fn lemma_rst(lines: Seq<Seq<char>>, i: int, so_far: Seq<SectionV>)
    requires
        0 <= i <= lines.len(),
        so_far.len() > 0,
    ensures
        ({
            let s = sections::rst_sections(lines, i, seq![sections::opening()]);
            let n = so_far.len() - 1;
            &&& s.len() > 0
            &&& s[0].heading is None
            &&& sections::rst_sections(lines, i, so_far) == so_far.take(n) + s.update(
                0,
                SectionV { heading: so_far[n].heading, body: so_far[n].body + s[0].body },
            )
        }),
    decreases lines.len() - i,
{
    let open = seq![sections::opening()];
    let n = so_far.len() - 1;
    let s = sections::rst_sections(lines, i, open);
    if i >= lines.len() {
        assert(so_far =~= so_far.take(n) + s.update(
            0,
            SectionV { heading: so_far[n].heading, body: so_far[n].body + s[0].body },
        ));
    } else if i + 1 < lines.len() && sections::underlined(lines[i], lines[i + 1]) {
        let h = text::trim(lines[i]);
        lemma_rst(lines, i + 2, sections::opened(so_far, h));
        lemma_rst(lines, i + 2, sections::opened(open, h));
        let r = sections::rst_sections(lines, i + 2, open);
        let u = r.update(
            0,
            SectionV { heading: Some(h), body: Seq::<char>::empty() + r[0].body },
        );
        assert(sections::opened(so_far, h).take(n + 1) =~= so_far);
        assert(sections::opened(open, h).take(1) =~= open);
        assert(s =~= open + u);
        assert(so_far + u =~= so_far.take(n) + s.update(
            0,
            SectionV { heading: so_far[n].heading, body: so_far[n].body + s[0].body },
        ));
    } else {
        let l = lines[i].push('\n');
        lemma_rst(lines, i + 1, sections::extended(so_far, l));
        lemma_rst(lines, i + 1, sections::extended(open, l));
        let r = sections::rst_sections(lines, i + 1, open);
        assert(sections::extended(so_far, l).take(n) =~= so_far.take(n));
        assert(sections::extended(open, l).take(0) + r.update(
            0,
            SectionV { heading: None, body: Seq::<char>::empty() + l + r[0].body },
        ) =~= s);
        assert(so_far[n].body + l + r[0].body =~= so_far[n].body + (Seq::<char>::empty() + l
            + r[0].body));
        assert(sections::rst_sections(lines, i, so_far) =~= so_far.take(n) + s.update(
            0,
            SectionV { heading: so_far[n].heading, body: so_far[n].body + s[0].body },
        ));
    }
}

proof fn lemma_rst_skip(lines: Seq<Seq<char>>, k: int, i: int, so_far: Seq<SectionV>)
    requires
        0 <= k <= lines.len(),
        0 <= i <= lines.len() - k,
    ensures
        sections::rst_sections(lines, k + i, so_far) == sections::rst_sections(
            lines.skip(k),
            i,
            so_far,
        ),
    decreases lines.len() - k - i,
{
    let t = lines.skip(k);
    if k + i < lines.len() {
        assert(t[i] == lines[k + i]);
        if i + 1 < t.len() {
            assert(t[i + 1] == lines[k + i + 1]);
        }
        if i + 1 < t.len() && sections::underlined(t[i], t[i + 1]) {
            lemma_rst_skip(lines, k, i + 2, sections::opened(so_far, text::trim(t[i])));
        } else {
            lemma_rst_skip(lines, k, i + 1, sections::extended(so_far, t[i].push('\n')));
        }
    }
}

/// The sections of reStructuredText: the lines before the first underlined title are a section
/// without heading; the title, without its underline, heads the lines behind them.
pub proof fn underlined_titles_open_sections(lines: Seq<Seq<char>>, k: int)
    requires
        0 <= k <= lines.len(),
        forall|j: int|
            #![trigger lines[j]]
            0 <= j < k && j + 1 < lines.len() ==> !sections::underlined(lines[j], lines[j + 1]),
        k == lines.len() || (k + 1 < lines.len() && sections::underlined(lines[k], lines[k + 1])),
    ensures
        ({
            let s = sections::rst_sections(lines, 0, seq![sections::opening()]);
            &&& s.len() > 0
            &&& s[0].heading is None
            &&& shape::laid(k, as_lines(lines), s[0].body)
            &&& k == lines.len() ==> s.len() == 1
            &&& k < lines.len() ==> s.skip(1) == retitled(
                sections::rst_sections(lines.skip(k + 2), 0, seq![sections::opening()]),
                text::trim(lines[k]),
            )
        }),
{
    let open = seq![sections::opening()];
    shape::lemma_laid_none(as_lines(lines));
    lemma_rst_run(lines, k, 0, open);
    if k < lines.len() {
        lemma_rst_skip(lines, k + 2, 0, open);
        lemma_rst(lines, k + 2, open);
    }
}

proof fn lemma_rst_run(lines: Seq<Seq<char>>, k: int, i: int, so_far: Seq<SectionV>)
    requires
        0 <= i <= k <= lines.len(),
        forall|j: int|
            #![trigger lines[j]]
            0 <= j < k && j + 1 < lines.len() ==> !sections::underlined(lines[j], lines[j + 1]),
        k == lines.len() || (k + 1 < lines.len() && sections::underlined(lines[k], lines[k + 1])),
        so_far.len() == 1,
        so_far[0].heading is None,
        shape::laid(i, as_lines(lines), so_far[0].body),
    ensures
        ({
            let s = sections::rst_sections(lines, i, so_far);
            &&& s.len() > 0
            &&& s[0].heading is None
            &&& shape::laid(k, as_lines(lines), s[0].body)
            &&& k == lines.len() ==> s.len() == 1
            &&& k < lines.len() ==> s.skip(1) == retitled(
                sections::rst_sections(lines, k + 2, seq![sections::opening()]),
                text::trim(lines[k]),
            )
        }),
    decreases k - i,
{
    let s = sections::rst_sections(lines, i, so_far);
    if i < k {
        assert(!(i + 1 < lines.len() && sections::underlined(lines[i], lines[i + 1])));
        let next = sections::extended(so_far, lines[i].push('\n'));
        shape::lemma_laid_step(i, as_lines(lines), as_lines(lines), so_far[0].body);
        lemma_rst_run(lines, k, i + 1, next);
    } else if k < lines.len() {
        let h = text::trim(lines[k]);
        let o = sections::opened(so_far, h);
        lemma_rst(lines, k + 2, o);
        let r = sections::rst_sections(lines, k + 2, seq![sections::opening()]);
        assert(o.take(1) =~= so_far);
        assert(Seq::<char>::empty() + r[0].body =~= r[0].body);
        assert(s.skip(1) =~= retitled(r, h));
    }
}

/// All the text of some sections: headings on lines of their own, and bodies.
pub open spec fn told(s: Seq<SectionV>) -> Seq<char>
    decreases s.len(),
{
    if s.len() == 0 {
        Seq::empty()
    } else {
        told(s.drop_last()) + match s.last().heading {
            Some(h) => "\n"@ + h + "\n"@ + s.last().body,
            None => s.last().body,
        }
    }
}

/// Merging short sections loses no text and no heading.
pub proof fn merging_sections_loses_nothing(s: Seq<SectionV>)
    ensures
        told(sections::floored(s)) == told(s),
        s.len() > 0 ==> sections::floored(s).len() > 0 && sections::floored(s)[0].heading
            == s[0].heading,
    decreases s.len(),
{
    reveal_strlit("\n");
    assert("\n"@ =~= seq!['\n']);
    if s.len() > 0 {
        let less = s.drop_last();
        merging_sections_loses_nothing(less);
        let before = sections::floored(less);
        let now = sections::floored(s);
        if before.len() > 0 && sections::too_small(s.last()) {
            assert(now.drop_last() =~= before.drop_last());
            assert(told(now) =~= told(before) + sections::inlined(s.last()));
        } else {
            assert(now.drop_last() =~= before);
            assert(told(now) =~= told(s));
        }
    }
}

/// A section of the floor's length or more is not merged away: it begins a section of its own, with
/// its own heading.
pub proof fn long_sections_stand_alone(s: Seq<SectionV>, i: int)
    requires
        0 <= i < s.len(),
        s[i].body.len() >= 480,
    ensures
        exists|k: int|
            0 <= k < sections::floored(s).len() && (#[trigger] sections::floored(s)[k]).heading
                == s[i].heading && s[i].body.is_prefix_of(sections::floored(s)[k].body),
    decreases s.len(),
{
    let less = s.drop_last();
    let before = sections::floored(less);
    let now = sections::floored(s);
    if i == s.len() - 1 {
        assert(now[before.len() as int] == s[i]);
    } else {
        assert(less[i] == s[i]);
        long_sections_stand_alone(less, i);
        let k = choose|k: int|
            0 <= k < before.len() && (#[trigger] before[k]).heading == less[i].heading
                && less[i].body.is_prefix_of(before[k].body);
        assert(now[k].heading == s[i].heading);
        assert(s[i].body.is_prefix_of(now[k].body)) by {
            assert(before[k].body.is_prefix_of(now[k].body));
        }
    }
}

/// What a block holds of a section.
pub open spec fn shown(s: Seq<SectionV>) -> spec_fn(int) -> BlockV {
    |i: int|
        BlockV {
            text: if text::trim(s[i].body).len() > 0 {
                text::trim(s[i].body)
            } else {
                s[i].heading->0
            },
            chapter: s[i].heading,
            page: None,
        }
}

/// Sections that become blocks.
pub open spec fn has_block(s: Seq<SectionV>, titled: bool) -> spec_fn(int) -> bool {
    |i: int| text::trim(s[i].body).len() > 0 || (titled && s[i].heading is Some)
}

/// Every section with text is a block under its heading, in order; with titles, so is a heading
/// alone.
pub proof fn every_section_with_text_is_a_block(s: Seq<SectionV>, titled: bool)
    ensures
        shape::picks(
            s.len() as int,
            has_block(s, titled),
            shown(s),
            sections::blocks_of(s, titled),
        ),
    decreases s.len(),
{
    if s.len() == 0 {
        shape::lemma_picks_none(has_block(s, titled), shown(s));
    } else {
        let less = s.drop_last();
        let n = less.len() as int;
        every_section_with_text_is_a_block(less, titled);
        assert forall|i: int| 0 <= i < n implies (#[trigger] has_block(less, titled)(i)
            <==> has_block(s, titled)(i)) by {
            assert(less[i] == s[i]);
        }
        assert forall|i: int| 0 <= i < n && #[trigger] has_block(less, titled)(i) implies shown(
            less,
        )(i) == shown(s)(i) by {
            assert(less[i] == s[i]);
        }
        shape::lemma_picks_step(
            n,
            has_block(less, titled),
            shown(less),
            has_block(s, titled),
            shown(s),
            sections::blocks_of(less, titled),
        );
    }
}

/// The characters of blocks are counted block by block, and a book keeps its blocks exactly where
/// they hold 200 characters or more.
pub proof fn blocks_are_kept_by_their_characters(a: Seq<BlockV>, b: BlockV)
    ensures
        sections::total_chars(Seq::empty()) == 0,
        sections::total_chars(a.push(b)) == sections::total_chars(a) + b.text.len(),
        sections::total_chars(a) >= 200 ==> sections::enough(a) == a,
        sections::total_chars(a) < 200 ==> sections::enough(a).len() == 0,
{
    assert(a.push(b).drop_last() =~= a);
}

/// A title is underlined exactly by a line of equals signs or of dashes that is no shorter than it and
/// has three signs at least.
pub proof fn underlines_are_long_enough(title: Seq<char>, c: char, n: nat)
    requires
        n > 0,
        !text::is_white(c),
    ensures
        sections::underlined(title, Seq::new(n, |i: int| c)) <==> text::trim(title).len() > 0 && n
            >= 3 && n >= text::trim(title).len() && (c == '=' || c == '-'),
{
    let u = Seq::new(n, |i: int| c);
    assert(u[0] == c && u.last() == c);
    assert(text::ltrim(u) == u);
    assert(text::trim(u) == u);
}

} // verus!
