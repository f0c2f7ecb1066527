//! Which documents can be read, and what lines and names tell.
use vstd::prelude::*;
use crate::ask;
use crate::fast;
use crate::html::{DomV, KindV};
use crate::ids;
use crate::markup;
use crate::query;
use crate::render;
use crate::rows;
use crate::rtf;
use crate::sections::SectionV;
use crate::settings;
use crate::shape;
use crate::spell;
use crate::store::RetrievedV;
use crate::text;

verus! {

// ---- RTF -------------------------------------------------------------------------------------

/// A control word that needs a number within bounds.
pub open spec fn is_delicate(name: Seq<char>) -> bool {
    name == "u"@ || name == "sl"@ || name == "uc"@ || name == "blue"@
}

/// A document without delicate control words is read.
pub proof fn documents_without_delicate_words_are_read(t: Seq<char>, i: int, colors: nat)
    requires
        forall|k: int| #[trigger] rtf::word_at(t, k) ==> !is_delicate(rtf::word_name(t, k)),
    ensures
        rtf::readable_from(t, i, colors),
    decreases t.len() - i,
{
    if 0 <= i < t.len() {
        if rtf::unread_group_at(t, i) {
            rtf::lemma_group_end(t, i + 1, 0);
            documents_without_delicate_words_are_read(t, rtf::group_end(t, i + 1, 0), colors);
        } else {
            documents_without_delicate_words_are_read(t, i + 1, colors);
        }
    }
}

/// A document that is read gives what the parser makes of it.
pub proof fn read_documents_give_their_text(t: Seq<char>)
    requires
        forall|k: int| #[trigger] rtf::word_at(t, k) ==> !is_delicate(rtf::word_name(t, k)),
    ensures
        rtf::rtf_text(t) == rtf::rtf_parsed(t),
{
    documents_without_delicate_words_are_read(t, 0, rtf::MAX_COLORS as nat);
}

/// The end of a group is behind the brace that closes it: as many groups are closed within as are
/// opened.
pub proof fn groups_end_behind_a_brace(t: Seq<char>, j: int, depth: nat)
    requires
        1 <= j <= t.len(),
    ensures
        ({
            let e = rtf::group_end(t, j, depth);
            e == t.len() || (j < e && t[e - 1] == '}' && t[e - 2] != '\\')
        }),
    decreases t.len() - j,
{
    if j < t.len() {
        if t[j] == '{' && t[j - 1] != '\\' {
            groups_end_behind_a_brace(t, j + 1, depth + 1);
        } else if t[j] == '}' && t[j - 1] != '\\' {
            if depth > 0 {
                groups_end_behind_a_brace(t, j + 1, (depth - 1) as nat);
            }
        } else {
            groups_end_behind_a_brace(t, j + 1, depth);
        }
    }
}

// ---- HTML ------------------------------------------------------------------------------------

/// A page without ordered lists, tables and preformatted text.
pub open spec fn is_simple(nodes: Seq<DomV>) -> bool {
    forall|k: int|
        0 <= k < nodes.len() ==> match (#[trigger] nodes[k]).kind {
            KindV::Element(name, _) => name != "ol"@ && name != "td"@ && name != "th"@ && name
                != "pre"@,
            _ => true,
        }
}

proof fn lemma_no_columns(nodes: Seq<DomV>, i: int)
    requires
        is_simple(nodes),
        nodes.len() < usize::MAX,
        0 <= i <= nodes.len(),
    ensures
        render::columns_are_countable(nodes, i, 0, 0),
    decreases nodes.len() - i,
{
    if i < nodes.len() {
        assert(!render::is_cell(nodes[i]));
        lemma_no_columns(nodes, i + 1);
    } else {
        let m = usize::MAX as nat;
        let d = nodes.len() + 1;
        assert(1 <= m / d) by (nonlinear_arith)
            requires
                0 < d <= m,
        ;
    }
}

/// A simple page whose texts have even characters is laid out.
pub proof fn simple_pages_are_laid_out(nodes: Seq<DomV>)
    requires
        is_simple(nodes),
        nodes.len() < usize::MAX,
        render::texts_are_even(nodes),
    ensures
        render::renderable(nodes),
{
    lemma_no_columns(nodes, 0);
    assert forall|k: int| 0 <= k < nodes.len() implies !render::is_element(
        #[trigger] nodes[k],
        "ol"@,
    ) && !render::is_cell(nodes[k]) && !render::is_element(nodes[k], "pre"@) by {}
}

/// The parts of a page's visible text: of each section its heading, on a line of its own, and its
/// body.
pub open spec fn told_parts(s: Seq<SectionV>) -> spec_fn(int) -> Seq<char> {
    |i: int|
        match s[i].heading {
            Some(h) => "\n"@ + h + "\n"@ + s[i].body,
            None => s[i].body,
        }
}

/// The visible text of a page is that of all its sections, one right after the other.
pub proof fn visible_texts_hold_every_section(s: Seq<SectionV>)
    ensures
        shape::laid(s.len() as int, told_parts(s), render::told(s)),
    decreases s.len(),
{
    reveal_strlit("\n");
    assert("\n"@ =~= seq!['\n']);
    if s.len() == 0 {
        shape::lemma_laid_none(told_parts(s));
    } else {
        let less = s.drop_last();
        visible_texts_hold_every_section(less);
        assert forall|i: int| 0 <= i < less.len() implies #[trigger] told_parts(less)(i)
            == told_parts(s)(i) by {
            assert(less[i] == s[i]);
        }
        shape::lemma_laid_step(
            less.len() as int,
            told_parts(less),
            told_parts(s),
            render::told(less),
        );
    }
}

/// A paragraph style makes a heading exactly where it is the first or the second heading style, in
/// any case and however it is spaced.
pub proof fn heading_styles_are_told_without_spaces(style: Seq<char>)
    ensures
        markup::heading_style(style) <==> ({
            let s = rows::keep(style, |c: char| c != ' ').map_values(|c: char| text::lower_ascii(c));
            s == "heading1"@ || s == "heading2"@
        }),
{
}

// ---- names -----------------------------------------------------------------------------------

/// The file name of a path below a directory is its last part.
pub proof fn file_names_are_last_parts(dir: Seq<char>, name: Seq<char>)
    requires
        name.len() > 0,
        !name.contains('/'),
        name != seq!['.'],
        name != seq!['.', '.'],
    ensures
        ids::file_name(dir + seq!['/'] + name) == Some(name),
        ids::file_name(name) == Some(name),
{
    let p = |s: Seq<char>| s.len() > 0 && s != seq!['.'];
    lemma_split_none(name);
    lemma_split_last(dir, name);
    let a = text::split(dir, '/');
    assert(rows::keep(a.push(name), p) == rows::keep(a, p).push(name)) by {
        rows::lemma_keep_push(a, p, name);
    }
    assert(Seq::<Seq<char>>::empty().push(name) =~= seq![name]);
    rows::lemma_keep_push(Seq::<Seq<char>>::empty(), p, name);
    assert(rows::keep(seq![name], p).last() == name);
    assert(ids::segments(dir + seq!['/'] + name) == rows::keep(a.push(name), p));
    assert(ids::segments(name) == rows::keep(seq![name], p));
}

proof fn lemma_split_none(name: Seq<char>)
    requires
        !name.contains('/'),
    ensures
        text::split(name, '/') == seq![name],
{
    let p = text::is_char('/');
    assert forall|j: int| 0 <= j < name.len() implies !p(#[trigger] name[j]) by {
        assert(name.contains(name[j]));
    }
    text::lemma_until(name, p, name.len() as int);
}

proof fn lemma_split_last(dir: Seq<char>, name: Seq<char>)
    requires
        !name.contains('/'),
    ensures
        text::split(dir + seq!['/'] + name, '/') == text::split(dir, '/').push(name),
    decreases dir.len(),
{
    let p = text::is_char('/');
    let s = dir + seq!['/'] + name;
    text::lemma_until_bounds(dir, p);
    let k = text::until(dir, p) as int;
    assert forall|j: int| 0 <= j < k implies !p(#[trigger] s[j]) by {
        assert(s[j] == dir[j]);
    }
    if k >= dir.len() {
        assert(s[k] == '/');
        text::lemma_until(s, p, k);
        assert(s.take(k) =~= dir);
        assert(s.skip(k + 1) =~= name);
        lemma_split_none(name);
        assert(text::split(s, '/') =~= text::split(dir, '/').push(name));
    } else {
        assert(s[k] == dir[k]);
        text::lemma_until(s, p, k);
        let d = dir.skip(k + 1);
        assert(s.take(k) =~= dir.take(k));
        assert(s.skip(k + 1) =~= d + seq!['/'] + name);
        lemma_split_last(d, name);
        assert(text::split(s, '/') =~= text::split(dir, '/').push(name));
    }
}

/// A title is told from the file name, without its extension.
pub proof fn titles_are_file_names_without_extension(
    dir: Seq<char>,
    stem: Seq<char>,
    ext: Seq<char>,
)
    requires
        stem.len() > 0,
        stem != seq!['.'] || ext.len() > 0,
        !stem.contains('/'),
        !ext.contains('/'),
        !ext.contains('.'),
    ensures
        ids::title_of(dir + seq!['/'] + (stem + seq!['.'] + ext)) == stem,
{
    let name = stem + seq!['.'] + ext;
    if name.contains('/') {
        let j = choose|j: int| 0 <= j < name.len() && name[j] == '/';
        if j < stem.len() {
            assert(stem[j] == '/');
        } else if j > stem.len() {
            assert(ext[j - stem.len() - 1] == '/');
        }
    }
    if name =~= seq!['.', '.'] {
        assert(stem.len() + ext.len() == 1);
        assert(stem =~= seq!['.']) by {
            assert(name[0] == '.');
            if stem.len() == 1 {
                assert(stem[0] == name[0]);
            }
        }
    }
    file_names_are_last_parts(dir, name);
    crate::naming_laws::stems_end_before_the_last_dot(stem, ext);
}

/// A sample that does not cover what it must gives no signature, and one that does gives one that is
/// never taken for missing.
pub proof fn signatures_are_whole_or_missing(s: ids::FileSample)
    ensures
        !ids::complete(s) ==> ids::signature_of(Some(s)) == "missing"@,
        ids::signature_of(None) == "missing"@,
        ids::complete(s) ==> ids::signature_of(Some(s)) != "missing"@ && ids::signature_of(
            Some(s),
        ).len() > 0,
{
    reveal_strlit("missing");
    if ids::complete(s) {
        let a = text::numeral(s.len as nat, 16);
        crate::number_laws::numerals_have_their_value(s.len as nat, 16);
        let t = ids::signature_of(Some(s));
        assert(t[a.len() as int] == ':');
        assert(t.len() > a.len());
        if t == "missing"@ {
            assert(t[a.len() as int] == "missing"@[a.len() as int]);
        }
    }
}

// ---- helper lines ----------------------------------------------------------------------------

/// The number that a text begins with, behind which a blank stands, is read.
pub proof fn leading_counts_are_read(n: nat, rest: Seq<char>)
    requires
        n <= usize::MAX,
        rest.len() == 0 || text::is_white(rest[0]),
    ensures
        fast::leading_count(text::decimal(n) + rest) == n,
{
    let d = text::decimal(n);
    let s = d + rest;
    let p = |c: char| text::is_white(c);
    text::lemma_decimal_value(n);
    assert forall|j: int| 0 <= j < d.len() implies !p(#[trigger] s[j]) by {
        assert(s[j] == d[j]);
        assert(text::is_digit(d[j]));
    }
    assert(!p(s[0]));
    if rest.len() > 0 {
        assert(s[d.len() as int] == rest[0]);
    }
    text::lemma_until(s, p, d.len() as int);
    assert(s.take(d.len() as int) =~= d);
    assert(text::words(s)[0] == d);
    crate::number_laws::numbers_are_read_back(n, d, 0);
}

/// What follows the last blank of a line is its last word.
pub proof fn last_words_follow_the_last_blank(a: Seq<char>, word: Seq<char>)
    requires
        !word.contains(' '),
    ensures
        fast::last_word(a + seq![' '] + word) == word,
        fast::last_word(word) == word,
{
    let s = a + seq![' '] + word;
    crate::naming_laws::last_indices_are_last(s, ' ');
    crate::naming_laws::last_indices_are_last(word, ' ');
    let n = a.len() as int;
    assert(s[n] == ' ');
    assert(s.contains(s[n]));
    let i = ids::last_index(s, ' ')->0;
    if i > n {
        assert(s[i] == word[i - n - 1]);
    }
    if i < n {
        assert(s[n] != ' ');
    }
    assert(s.skip(n + 1) =~= word);
}

// ---- searching -------------------------------------------------------------------------------

/// A search goes on with the distinct passages that were found, unless they reveal a misspelling in
/// the first query: it is then repaired and asked again.
pub proof fn searches_rerank_all_that_was_found(
    q: Seq<char>,
    k: nat,
    first: bool,
    found: Seq<RetrievedV>,
)
    ensures
        ({
            let all = query::distinct(found);
            let better = spell::corrected(q, all);
            let s = ask::search_after(q, k, first, found);
            &&& s is Rerank <==> !first || better == q
            &&& s is Rerank ==> s == ask::SearchV::Rerank(q, all)
            &&& s is Retrieve ==> s == ask::SearchV::Retrieve(better, k)
        }),
{
}

/// Keys order numbers as they are: of positive numbers the greater has the greater key, of negative
/// ones the lesser, and every negative number comes before every positive one.
pub proof fn keys_order_numbers(a: u32, b: u32)
    requires
        settings::order_key(a) is Some,
        settings::order_key(b) is Some,
    ensures
        a < b && b < 0x8000_0000 ==> settings::order_key(a)->0 < settings::order_key(b)->0,
        0x8000_0000 <= a && a < b ==> settings::order_key(a)->0 > settings::order_key(b)->0,
        a > 0x8000_0000 && b < 0x8000_0000 ==> settings::order_key(a)->0 < settings::order_key(
            b,
        )->0,
        a == 0x8000_0000 && b == 0 ==> settings::order_key(a) == settings::order_key(b),
{
}

} // verus!
