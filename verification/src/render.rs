//! HTML into plain text: which documents can be laid out, and their text.
use vstd::prelude::*;
use crate::html;
use crate::html::{DomKind, DomNode, DomV, KindV};
use crate::rows;
use crate::sections;
use crate::sections::{Section, SectionV};
use crate::text;

verus! {

// ---- attributes ------------------------------------------------------------------------------

/// An attribute with a name.
pub open spec fn named(key: Seq<char>) -> spec_fn((Seq<char>, Seq<char>)) -> bool {
    |a: (Seq<char>, Seq<char>)| a.0 == key
}

/// The value of an element's attribute; nothing where it has none.
pub open spec fn attribute(n: DomV, key: Seq<char>) -> Seq<char> {
    match n.kind {
        KindV::Element(_, attrs) => match rows::find_row(attrs, named(key)) {
            Some(a) => a.1,
            None => Seq::empty(),
        },
        _ => Seq::empty(),
    }
}

fn value_of_attribute(n: &DomNode, key: &str) -> (r: Vec<char>)
    ensures
        r@ == attribute(n@, key@),
{
    if let DomKind::Element(_, attrs) = &n.kind {
        let ghost p = named(key@);
        let found = rows::find_where(
            attrs,
            |a: &(String, String)| -> (b: bool)
                ensures
                    b == p(a@)
                { text::same_text(a.0.as_str(), key) },
            Ghost(p),
        );
        if let Some(i) = found {
            return text::chars_of(attrs[i].1.as_str());
        }
    }
    let none: Vec<char> = Vec::new();
    assert(none@ =~= Seq::empty());
    none
}

/// The node is an element with a tag name.
pub open spec fn is_element(n: DomV, name: Seq<char>) -> bool {
    match n.kind {
        KindV::Element(e, _) => e == name,
        _ => false,
    }
}

/// The node is a cell of a table.
pub open spec fn is_cell(n: DomV) -> bool {
    is_element(n, "td"@) || is_element(n, "th"@)
}

fn has_name(n: &DomNode, name: &str) -> (r: bool)
    ensures
        r == is_element(n@, name@),
{
    match &n.kind {
        DomKind::Element(e, _) => text::same_text(e.as_str(), name),
        _ => false,
    }
}

fn names_cell(n: &DomNode) -> (r: bool)
    ensures
        r == is_cell(n@),
{
    has_name(n, "td") || has_name(n, "th")
}

// ---- numbers ---------------------------------------------------------------------------------

/// How many columns or rows an attribute says: one where it says no number that can be counted.
pub open spec fn span(v: Seq<char>) -> nat {
    match text::number_of(v) {
        Some(n) => if n <= usize::MAX {
            n
        } else {
            1
        },
        None => 1,
    }
}

fn span_of(v: &[char]) -> (r: usize)
    ensures
        r == span(v@),
{
    match text::parse_number(v, usize::MAX as u64) {
        Some(n) => n as usize,
        None => 1,
    }
}

/// The whole number that a text is, if it fits 64 bits with a sign.
pub open spec fn signed_number(v: Seq<char>) -> Option<int> {
    if v.len() > 1 && v[0] == '-' {
        if v[1] == '+' {
            None
        } else {
            match text::number_of(v.skip(1)) {
                Some(n) => if n <= 0x8000_0000_0000_0000 {
                    Some(-n)
                } else {
                    None
                },
                None => None,
            }
        }
    } else {
        match text::number_of(v) {
            Some(n) => if n <= i64::MAX {
                Some(n as int)
            } else {
                None
            },
            None => None,
        }
    }
}

/// Lists can be counted from the number on: that before it, and so many after it, fit 64 bits.
pub open spec fn countable(v: Seq<char>, items: nat) -> bool {
    match signed_number(v) {
        Some(n) => n > i64::MIN && n + items <= i64::MAX,
        None => true,
    }
}

fn is_countable(v: &[char], items: usize) -> (r: bool)
    ensures
        r == countable(v@, items as nat),
{
    if v.len() > 1 && v[0] == '-' {
        if v[1] == '+' {
            return true;
        }
        let digits = vstd::slice::slice_subrange(v, 1, v.len());
        assert(digits@ =~= v@.skip(1));
        match text::parse_number(digits, 0x8000_0000_0000_0000) {
            Some(n) => {
                let sum: i128 = items as i128 - n as i128;
                n < 0x8000_0000_0000_0000 && sum <= i64::MAX as i128
            },
            None => true,
        }
    } else {
        match text::parse_number(v, i64::MAX as u64) {
            Some(n) => n as i128 + items as i128 <= i64::MAX as i128,
            None => true,
        }
    }
}

// ---- layout ----------------------------------------------------------------------------------

/// Every ordered list can be counted.
pub open spec fn lists_are_countable(nodes: Seq<DomV>) -> bool {
    forall|k: int|
        0 <= k < nodes.len() && is_element(#[trigger] nodes[k], "ol"@) ==> countable(
            attribute(nodes[k], "start"@),
            nodes.len(),
        )
}

/// The columns of the cells from `i` on can be counted, after cells of so many columns, some of
/// which take what is left of their rows.
pub open spec fn columns_are_countable(nodes: Seq<DomV>, i: int, columns: nat, open: nat) -> bool
    decreases nodes.len() - i,
{
    if i < 0 || i >= nodes.len() {
        open + 1 <= usize::MAX as nat / (columns + nodes.len() + 1)
    } else if columns > usize::MAX {
        false
    } else if !is_cell(nodes[i]) {
        columns_are_countable(nodes, i + 1, columns, open)
    } else {
        let s = span(attribute(nodes[i], "colspan"@));
        columns_are_countable(
            nodes,
            i + 1,
            columns + s,
            open + (if s == 0 {
                1nat
            } else {
                0
            }),
        )
    }
}

/// No cell reaches into a later row.
pub open spec fn rows_are_apart(nodes: Seq<DomV>) -> bool {
    forall|k: int|
        0 <= k < nodes.len() && is_cell(#[trigger] nodes[k]) ==> span(
            attribute(nodes[k], "rowspan"@),
        ) <= 1
}

/// A character that may change the width of its neighbours: a joiner, a variation selector, a skin
/// tone, or a letter of a ligature.
pub open spec fn bends_width(c: char) -> bool {
    let n = c as u32;
    n == 0x200d || n == 0xfe01 || n == 0xfe0e || n == 0xfe0f || (0x1f3fb <= n <= 0x1f3ff) || n
        == 0x0644 || (0x06b5 <= n <= 0x06b8) || n == 0x076a || n == 0x08a6 || n == 0x08c7 || n
        == 0x17d2 || n == 0x2d7f || (0xa4f8 <= n <= 0xa4fb) || (0x16d63 <= n <= 0x16d69)
}

/// The width of a text is that of its characters together.
pub open spec fn even(t: Seq<char>) -> bool {
    forall|i: int| 0 <= i < t.len() ==> !bends_width(#[trigger] t[i])
}

/// What is written of a node: its text, or what stands for an image.
pub open spec fn written(n: DomV) -> Seq<char> {
    match n.kind {
        KindV::Text(t) => t,
        _ => attribute(n, "alt"@),
    }
}

/// Every text has the width of its characters.
pub open spec fn texts_are_even(nodes: Seq<DomV>) -> bool {
    forall|k: int| 0 <= k < nodes.len() ==> even(written(#[trigger] nodes[k]))
}

/// A letter or digit of ASCII stands in a text.
pub open spec fn has_letter(t: Seq<char>) -> bool {
    exists|i: int| 0 <= i < t.len() && is_letter(#[trigger] t[i])
}

/// A letter or digit of ASCII.
pub open spec fn is_letter(c: char) -> bool {
    'a' <= c <= 'z' || 'A' <= c <= 'Z' || '0' <= c <= '9'
}

/// Elements within a line whose text is shown.
pub const INLINE: [&'static str; 13] = [
    "a",
    "b",
    "code",
    "em",
    "font",
    "i",
    "kbd",
    "samp",
    "small",
    "span",
    "strong",
    "tt",
    "u",
];

/// A letter is shown among the nodes from `lo` to `hi`, within elements of a line only.
pub open spec fn shows_letter(nodes: Seq<DomV>, lo: int, hi: int) -> bool
    decreases hi - lo,
{
    if lo < 0 || lo >= hi || hi > nodes.len() {
        false
    } else {
        match nodes[lo].kind {
            KindV::Text(t) => has_letter(t) || shows_letter(nodes, lo + 1, hi),
            KindV::Element(name, _) => if html::among(name, INLINE@) {
                shows_letter(nodes, lo + 1, hi)
            } else {
                shows_letter(nodes, html::next_sibling(nodes, lo, hi), hi)
            },
            KindV::Other => shows_letter(nodes, lo + 1, hi),
        }
    }
}

/// A text of nothing but spaces and line breaks.
pub open spec fn is_blank(t: Seq<char>) -> bool {
    forall|i: int| 0 <= i < t.len() ==> #[trigger] t[i] == ' ' || t[i] == '\n'
}

/// The nodes from `lo` to `hi` write nothing but spaces and line breaks.
pub open spec fn all_blank(nodes: Seq<DomV>, lo: int, hi: int) -> bool {
    forall|k: int| lo <= k < hi ==> is_blank(written(#[trigger] nodes[k]))
}

/// The preformatted text at `k` shows a letter, or holds nothing but spaces and line breaks.
pub open spec fn preformatted_is_seen(nodes: Seq<DomV>, k: int) -> bool {
    let end = html::next_sibling(nodes, k, nodes.len() as int);
    shows_letter(nodes, k + 1, end) || all_blank(nodes, k + 1, end)
}

/// All preformatted text shows a letter, or holds nothing but spaces and line breaks.
pub open spec fn all_preformatted_is_seen(nodes: Seq<DomV>) -> bool {
    forall|k: int|
        0 <= k < nodes.len() && is_element(#[trigger] nodes[k], "pre"@) ==> preformatted_is_seen(
            nodes,
            k,
        )
}

/// A document that can be laid out.
pub open spec fn renderable(nodes: Seq<DomV>) -> bool {
    &&& lists_are_countable(nodes)
    &&& columns_are_countable(nodes, 0, 0, 0)
    &&& rows_are_apart(nodes)
    &&& texts_are_even(nodes)
    &&& all_preformatted_is_seen(nodes)
}

fn is_even(t: &[char]) -> (r: bool)
    ensures
        r == even(t@),
{
    for i in 0..t.len()
        invariant
            forall|k: int| 0 <= k < i ==> !bends_width(#[trigger] t@[k]),
    {
        let n: u32 = t[i] as u32;
        if n == 0x200d || n == 0xfe01 || n == 0xfe0e || n == 0xfe0f || (0x1f3fb <= n && n <= 0x1f3ff)
            || n == 0x0644 || (0x06b5 <= n && n <= 0x06b8) || n == 0x076a || n == 0x08a6 || n
            == 0x08c7 || n == 0x17d2 || n == 0x2d7f || (0xa4f8 <= n && n <= 0xa4fb) || (0x16d63 <= n
            && n <= 0x16d69) {
            assert(bends_width(t@[i as int]));
            return false;
        }
    }
    true
}

fn what_is_written(n: &DomNode) -> (r: Vec<char>)
    ensures
        r@ == written(n@),
{
    match &n.kind {
        DomKind::Text(t) => text::chars_of(t.as_str()),
        _ => value_of_attribute(n, "alt"),
    }
}

fn finds_letter(s: &str) -> (r: bool)
    ensures
        r == has_letter(s@),
{
    let t = text::chars_of(s);
    for i in 0..t.len()
        invariant
            t@ == s@,
            forall|k: int| 0 <= k < i ==> !is_letter(#[trigger] t@[k]),
    {
        let c = t[i];
        if ('a' <= c && c <= 'z') || ('A' <= c && c <= 'Z') || ('0' <= c && c <= '9') {
            assert(is_letter(t@[i as int]));
            return true;
        }
    }
    false
}

fn finds_shown_letter(nodes: &Vec<DomNode>, from: usize, hi: usize) -> (r: bool)
    requires
        hi <= nodes@.len(),
    ensures
        r == shows_letter(rows::vals(nodes@), from as int, hi as int),
{
    let ghost all = rows::vals(nodes@);
    let mut i: usize = from;
    while i < hi
        invariant
            all == rows::vals(nodes@),
            from <= i,
            hi <= nodes@.len(),
            shows_letter(all, i as int, hi as int) == shows_letter(all, from as int, hi as int),
        decreases hi - i,
    {
        assert(all[i as int] == nodes@[i as int]@);
        match &nodes[i].kind {
            DomKind::Text(t) => {
                if finds_letter(t.as_str()) {
                    return true;
                }
                i = i + 1;
            },
            DomKind::Element(name, _) => {
                if html::is_among(name.as_str(), &INLINE) {
                    i = i + 1;
                } else {
                    i = html::end_of_subtree(nodes, i, hi);
                }
            },
            DomKind::Other => {
                i = i + 1;
            },
        }
    }
    false
}

fn finds_only_blanks(t: &[char]) -> (r: bool)
    ensures
        r == is_blank(t@),
{
    for i in 0..t.len()
        invariant
            forall|k: int| 0 <= k < i ==> #[trigger] t@[k] == ' ' || t@[k] == '\n',
    {
        if t[i] != ' ' && t[i] != '\n' {
            return false;
        }
    }
    true
}

fn is_seen(nodes: &Vec<DomNode>, k: usize) -> (r: bool)
    requires
        k < nodes@.len(),
    ensures
        r == preformatted_is_seen(rows::vals(nodes@), k as int),
{
    let ghost all = rows::vals(nodes@);
    let count: usize = nodes.len();
    let end: usize = html::end_of_subtree(nodes, k, count);
    if finds_shown_letter(nodes, k + 1, end) {
        return true;
    }
    for i in k + 1..end
        invariant
            all == rows::vals(nodes@),
            k < end <= nodes@.len(),
            end == html::next_sibling(all, k as int, nodes@.len() as int),
            !shows_letter(all, k + 1, end as int),
            forall|j: int| k + 1 <= j < i ==> is_blank(written(#[trigger] all[j])),
    {
        assert(all[i as int] == nodes@[i as int]@);
        if !finds_only_blanks(&what_is_written(&nodes[i])) {
            assert(!is_blank(written(all[i as int])));
            return false;
        }
    }
    true
}

fn has_countable_columns(nodes: &Vec<DomNode>) -> (r: bool)
    ensures
        r == columns_are_countable(rows::vals(nodes@), 0, 0, 0),
{
    let ghost all = rows::vals(nodes@);
    let mut columns: u128 = 0;
    let mut open: u128 = 0;
    let count: usize = nodes.len();
    for i in 0..count
        invariant
            all == rows::vals(nodes@),
            count == nodes@.len(),
            columns <= usize::MAX + usize::MAX,
            open <= i,
            columns_are_countable(all, i as int, columns as nat, open as nat)
                == columns_are_countable(all, 0, 0, 0),
    {
        assert(all[i as int] == nodes@[i as int]@);
        if columns > usize::MAX as u128 {
            return false;
        }
        if names_cell(&nodes[i]) {
            let s: usize = span_of(&value_of_attribute(&nodes[i], "colspan"));
            columns = columns + s as u128;
            if s == 0 {
                open = open + 1;
            }
        }
    }
    open + 1 <= usize::MAX as u128 / (columns + count as u128 + 1)
}

/// Whether a document given by its nodes can be laid out.
pub fn is_renderable(nodes: &Vec<DomNode>) -> (r: bool)
    ensures
        r == renderable(rows::vals(nodes@)),
{
    let ghost all = rows::vals(nodes@);
    let count: usize = nodes.len();
    if !has_countable_columns(nodes) {
        return false;
    }
    for k in 0..count
        invariant
            all == rows::vals(nodes@),
            count == nodes@.len(),
            forall|j: int|
                0 <= j < k && is_element(#[trigger] all[j], "ol"@) ==> countable(
                    attribute(all[j], "start"@),
                    all.len(),
                ),
            forall|j: int|
                0 <= j < k && is_cell(#[trigger] all[j]) ==> span(attribute(all[j], "rowspan"@))
                    <= 1,
            forall|j: int| 0 <= j < k ==> even(written(#[trigger] all[j])),
            forall|j: int|
                0 <= j < k && is_element(#[trigger] all[j], "pre"@) ==> preformatted_is_seen(all, j),
    {
        assert(all[k as int] == nodes@[k as int]@);
        if has_name(&nodes[k], "ol") && !is_countable(
            &value_of_attribute(&nodes[k], "start"),
            count,
        ) {
            return false;
        }
        if names_cell(&nodes[k]) && span_of(&value_of_attribute(&nodes[k], "rowspan")) > 1 {
            return false;
        }
        if !is_even(&what_is_written(&nodes[k])) {
            assert(!even(written(all[k as int])));
            return false;
        }
        if has_name(&nodes[k], "pre") && !is_seen(nodes, k) {
            return false;
        }
    }
    true
}

// ---- text ------------------------------------------------------------------------------------

/// The text of an HTML document rendered to a width, if it can be.
pub uninterp spec fn html_rendered(html: Seq<char>, width: usize) -> Option<Seq<char>>;

/// Renders HTML as plain text (`html2text::from_read`): a function of text and width, named here.
/// It builds the tree of elements that [`html::parse_html`] lists without scripts. It may panic where
/// the numbers of a list or the columns of a table cannot be counted, where cells reach into later
/// rows, and where characters bend the width of a line; and it may not return where preformatted text
/// of no width holds more than spaces. Such documents are left out.
#[verifier::external_body]
pub(crate) fn render_html(html: &str, width: usize) -> (r: Option<String>)
    requires
        renderable(html::html_nodes(html@, false)),
    ensures
        text::opt_text(r) == html_rendered(html@, width),
{
    html2text::from_read(html.as_bytes(), width).ok()
}

/// Width for rendering HTML: long enough that no sentence is broken within a word.
pub const H2T_WIDTH: usize = 200;

/// The texts of some sections with their headings.
pub open spec fn told(s: Seq<SectionV>) -> Seq<char>
    decreases s.len(),
{
    if s.len() == 0 {
        Seq::empty()
    } else {
        told(s.drop_last()) + sections::inlined(s.last())
    }
}

/// The visible text of a document given by its nodes.
pub open spec fn visible_text(nodes: Seq<DomV>) -> Seq<char> {
    told(html::html_sections(nodes))
}

/// The visible text of a document given by its nodes, as it stands.
pub fn text_of_nodes(nodes: &Vec<DomNode>) -> (r: String)
    ensures
        r@ == visible_text(rows::vals(nodes@)),
{
    let v: Vec<Section> = html::sections_of_nodes(nodes);
    let ghost all = rows::vals(v@);
    let mut out = String::new();
    assert(out@ =~= told(all.take(0)));
    for i in 0..v.len()
        invariant
            all == rows::vals(v@),
            out@ == told(all.take(i as int)),
    {
        proof {
            assert(all.take(i + 1).drop_last() =~= all.take(i as int));
            assert(all.take(i + 1).last() == v@[i as int]@);
        }
        let mut more = String::new();
        if let Some(h) = &v[i].heading {
            more.push('\n');
            more.append(h.as_str());
            more.push('\n');
        }
        more.append(v[i].body.as_str());
        assert(more@ =~= sections::inlined(v@[i as int]@));
        out.append(more.as_str());
    }
    assert(all.take(all.len() as int) =~= all);
    out
}

/// The plain text of an HTML document: laid out where it can be, and otherwise its visible text as
/// it stands; nothing where the width does not suffice.
pub open spec fn html_text(html: Seq<char>) -> Seq<char> {
    let nodes = html::html_nodes(html, false);
    if renderable(nodes) {
        match html_rendered(html, H2T_WIDTH) {
            Some(t) => t,
            None => Seq::empty(),
        }
    } else {
        visible_text(nodes)
    }
}

/// The plain text of an HTML document.
pub fn html_to_text(html: &str) -> (r: String)
    ensures
        r@ == html_text(html@),
{
    let nodes = html::parse_html(html, false);
    if !is_renderable(&nodes) {
        return text_of_nodes(&nodes);
    }
    match render_html(html, H2T_WIDTH) {
        Some(t) => t,
        None => String::new(),
    }
}

} // verus!
