//! A grounded answer with its citations as a document to keep.
use vstd::prelude::*;
use vstd::seq_lib::*;
use crate::convert;
use crate::order;
use crate::rows;
use crate::text;

verus! {

/// A source that backs an answer.
#[derive(Debug, PartialEq, Eq)]
pub struct Source {
    pub rank: usize,
    pub citation: String,
    pub source_path: String,
    pub page: Option<u32>,
    pub chapter: Option<String>,
}

/// What a [`Source`] holds.
#[verifier::ext_equal]
pub struct SourceV {
    pub rank: nat,
    pub citation: Seq<char>,
    pub source_path: Seq<char>,
    pub page: Option<u32>,
    pub chapter: Option<Seq<char>>,
}

impl View for Source {
    type V = SourceV;

    open spec fn view(&self) -> SourceV {
        SourceV {
            rank: self.rank as nat,
            citation: self.citation@,
            source_path: self.source_path@,
            page: self.page,
            chapter: text::opt_text(self.chapter),
        }
    }
}

/// What a document is made from.
#[derive(Debug, PartialEq, Eq)]
pub struct ArtifactDoc {
    /// The user's question, which names the document.
    pub question: String,
    /// The answer, with its `[n]` marks.
    pub answer: String,
    pub model: String,
    pub collection: String,
    /// When it was made, for people.
    pub created: String,
    pub sources: Vec<Source>,
}

/// What an [`ArtifactDoc`] holds.
#[verifier::ext_equal]
pub struct DocV {
    pub question: Seq<char>,
    pub answer: Seq<char>,
    pub model: Seq<char>,
    pub collection: Seq<char>,
    pub created: Seq<char>,
    pub sources: Seq<SourceV>,
}

impl View for ArtifactDoc {
    type V = DocV;

    open spec fn view(&self) -> DocV {
        DocV {
            question: self.question@,
            answer: self.answer@,
            model: self.model@,
            collection: self.collection@,
            created: self.created@,
            sources: rows::vals(self.sources@),
        }
    }
}

// ---- quoting ---------------------------------------------------------------------------------

/// A text with quotes and backslashes escaped.
pub open spec fn escaped(s: Seq<char>) -> Seq<char>
    decreases s.len(),
{
    if s.len() == 0 {
        s
    } else if s.last() == '\\' || s.last() == '"' {
        escaped(s.drop_last()).push('\\').push(s.last())
    } else {
        escaped(s.drop_last()).push(s.last())
    }
}

/// What an escaped text stands for, read from the front.
pub open spec fn unescaped(s: Seq<char>) -> Seq<char>
    decreases s.len(),
{
    if s.len() == 0 {
        s
    } else if s[0] == '\\' && s.len() > 1 {
        seq![s[1]] + unescaped(s.skip(2))
    } else {
        seq![s[0]] + unescaped(s.skip(1))
    }
}

/// A text quoted for YAML.
pub open spec fn yaml_quoted(s: Seq<char>) -> Seq<char> {
    "\""@ + escaped(s) + "\""@
}

/// Quotes a text for YAML.
pub fn yaml_quote(s: &str) -> (r: String)
    ensures
        r@ == yaml_quoted(s@),
{
    let v = text::chars_of(s);
    let mut out = String::new();
    assert(out@ =~= escaped(v@.take(0)));
    for i in 0..v.len()
        invariant
            out@ == escaped(v@.take(i as int)),
    {
        assert(v@.take(i + 1).drop_last() =~= v@.take(i as int));
        if v[i] == '\\' || v[i] == '"' {
            out.push('\\');
        }
        out.push(v[i]);
    }
    assert(v@.take(v@.len() as int) =~= v@);
    let mut r = "\"".to_owned();
    r.append(out.as_str());
    r.append("\"");
    r
}

proof fn lemma_escaped_front(s: Seq<char>)
    requires
        s.len() > 0,
    ensures
        escaped(s) == (if s[0] == '\\' || s[0] == '"' {
            seq!['\\', s[0]]
        } else {
            seq![s[0]]
        }) + escaped(s.skip(1)),
    decreases s.len(),
{
    if s.len() == 1 {
        assert(s.drop_last() =~= Seq::empty());
        assert(s.skip(1) =~= Seq::empty());
        reveal_with_fuel(escaped, 2);
        assert(escaped(s) =~= (if s[0] == '\\' || s[0] == '"' {
            seq!['\\', s[0]]
        } else {
            seq![s[0]]
        }) + escaped(s.skip(1)));
    } else {
        let d = s.drop_last();
        lemma_escaped_front(d);
        assert(s.skip(1).drop_last() =~= d.skip(1));
        assert(s.skip(1).last() == s.last());
        assert(escaped(s) =~= (if s[0] == '\\' || s[0] == '"' {
            seq!['\\', s[0]]
        } else {
            seq![s[0]]
        }) + escaped(s.skip(1)));
    }
}

/// A quoted text stands for itself, whatever quotes and backslashes it holds.
pub proof fn yaml_quoting_keeps_the_text(s: Seq<char>)
    ensures
        unescaped(escaped(s)) == s,
    decreases s.len(),
{
    if s.len() > 0 {
        lemma_escaped_front(s);
        yaml_quoting_keeps_the_text(s.skip(1));
        let e = escaped(s);
        let r = escaped(s.skip(1));
        if s[0] == '\\' || s[0] == '"' {
            assert(e.skip(2) =~= r);
        } else {
            assert(e.skip(1) =~= r);
        }
        assert(unescaped(e) =~= seq![s[0]] + s.skip(1));
        assert(seq![s[0]] + s.skip(1) =~= s);
    }
}

// ---- slugs -----------------------------------------------------------------------------------

/// A letter or digit of ASCII.
pub open spec fn plain(c: char) -> bool {
    'a' <= c <= 'z' || 'A' <= c <= 'Z' || '0' <= c <= '9'
}

/// A title in lower case, with one dash for every run of other characters but at its start.
pub open spec fn dashed(s: Seq<char>) -> Seq<char>
    decreases s.len(),
{
    if s.len() == 0 {
        s
    } else {
        let d = dashed(s.drop_last());
        if plain(s.last()) {
            d.push(text::lower_ascii(s.last()))
        } else if d.len() > 0 && d.last() != '-' {
            d.push('-')
        } else {
            d
        }
    }
}

/// A text without dashes at its start.
pub open spec fn undashed_start(s: Seq<char>) -> Seq<char>
    decreases s.len(),
{
    if s.len() > 0 && s[0] == '-' {
        undashed_start(s.skip(1))
    } else {
        s
    }
}

/// A text without dashes at its end.
pub open spec fn undashed_end(s: Seq<char>) -> Seq<char>
    decreases s.len(),
{
    if s.len() > 0 && s.last() == '-' {
        undashed_end(s.drop_last())
    } else {
        s
    }
}

/// A text without dashes at its ends.
pub open spec fn undashed(s: Seq<char>) -> Seq<char> {
    undashed_end(undashed_start(s))
}

/// How long a slug may get.
pub const SLUG_CHARS: usize = 60;

/// The name that a title gives a file.
pub open spec fn slug_of(title: Seq<char>) -> Seq<char> {
    let s = undashed(dashed(title));
    let capped = undashed(
        if s.len() <= SLUG_CHARS {
            s
        } else {
            s.take(SLUG_CHARS as int)
        },
    );
    if capped.len() == 0 {
        "artifact"@
    } else {
        capped
    }
}

fn undash(v: &[char]) -> (r: &[char])
    ensures
        r@ == undashed(v@),
{
    let mut a: usize = 0;
    assert(v@.skip(0) =~= v@);
    while a < v.len() && v[a] == '-'
        invariant
            a <= v@.len(),
            undashed_start(v@.skip(a as int)) == undashed_start(v@),
        decreases v@.len() - a,
    {
        assert(v@.skip(a as int).skip(1) =~= v@.skip(a + 1));
        a = a + 1;
    }
    let ghost t = v@.skip(a as int);
    assert(undashed_start(v@) == t);
    let mut b: usize = v.len();
    assert(t.take(t.len() as int) =~= t);
    while b > a && v[b - 1] == '-'
        invariant
            a <= b <= v@.len(),
            t == v@.skip(a as int),
            undashed_end(t.take(b - a)) == undashed_end(t),
        decreases b - a,
    {
        assert(t.take(b - a).last() == v@[b - 1]);
        assert(t.take(b - a).drop_last() =~= t.take(b - a - 1));
        b = b - 1;
    }
    let r = vstd::slice::slice_subrange(v, a, b);
    assert(r@ =~= t.take(b - a));
    r
}

/// The name that a title gives a file: lower case, hyphenated and short.
pub fn slugify(title: &str) -> (r: String)
    ensures
        r@ == slug_of(title@),
{
    let v = text::chars_of(title);
    let mut d: Vec<char> = Vec::new();
    assert(d@ =~= dashed(v@.take(0)));
    for i in 0..v.len()
        invariant
            d@ == dashed(v@.take(i as int)),
    {
        assert(v@.take(i + 1).drop_last() =~= v@.take(i as int));
        let c = v[i];
        if ('a' <= c && c <= 'z') || ('A' <= c && c <= 'Z') || ('0' <= c && c <= '9') {
            d.push(text::lower_ascii_char(c));
        } else if d.len() > 0 && d[d.len() - 1] != '-' {
            d.push('-');
        }
    }
    assert(v@.take(v@.len() as int) =~= v@);
    let s = undash(&d);
    let head = if s.len() <= SLUG_CHARS {
        s
    } else {
        vstd::slice::slice_subrange(s, 0, SLUG_CHARS)
    };
    assert(s@.len() > SLUG_CHARS ==> head@ =~= s@.take(SLUG_CHARS as int));
    let capped = undash(head);
    if capped.len() == 0 {
        "artifact".to_owned()
    } else {
        text::string_of(capped)
    }
}

/// A character that a slug may hold.
pub open spec fn slug_char(c: char) -> bool {
    'a' <= c <= 'z' || '0' <= c <= '9' || c == '-'
}

/// Every character may stand in a slug.
pub open spec fn slug_chars(s: Seq<char>) -> bool {
    forall|i: int| 0 <= i < s.len() ==> slug_char(#[trigger] s[i])
}

/// No two dashes stand side by side.
pub open spec fn single_dashes(s: Seq<char>) -> bool {
    forall|i: int| 0 <= i && i + 1 < s.len() && #[trigger] s[i] == '-' ==> s[i + 1] != '-'
}

pub proof fn lemma_dashed(s: Seq<char>)
    ensures
        slug_chars(dashed(s)),
        single_dashes(dashed(s)),
        dashed(s).len() > 0 ==> dashed(s)[0] != '-',
    decreases s.len(),
{
    if s.len() > 0 {
        lemma_dashed(s.drop_last());
    }
}

proof fn lemma_undashed(s: Seq<char>)
    requires
        slug_chars(s),
        single_dashes(s),
    ensures
        slug_chars(undashed(s)),
        single_dashes(undashed(s)),
        undashed(s).len() <= s.len(),
        undashed(s).len() > 0 ==> undashed(s)[0] != '-' && undashed(s).last() != '-',
{
    lemma_undashed_start(s);
    lemma_undashed_end(undashed_start(s));
}

proof fn lemma_undashed_start(s: Seq<char>)
    requires
        slug_chars(s),
        single_dashes(s),
    ensures
        slug_chars(undashed_start(s)),
        single_dashes(undashed_start(s)),
        undashed_start(s).len() <= s.len(),
        undashed_start(s).len() > 0 ==> undashed_start(s)[0] != '-',
    decreases s.len(),
{
    if s.len() > 0 && s[0] == '-' {
        lemma_undashed_start(s.skip(1));
    }
}

proof fn lemma_undashed_end(s: Seq<char>)
    requires
        slug_chars(s),
        single_dashes(s),
    ensures
        slug_chars(undashed_end(s)),
        single_dashes(undashed_end(s)),
        undashed_end(s).len() <= s.len(),
        undashed_end(s).len() > 0 ==> undashed_end(s).last() != '-' && undashed_end(s)[0] == s[0],
    decreases s.len(),
{
    if s.len() > 0 && s.last() == '-' {
        lemma_undashed_end(s.drop_last());
    }
}

/// A slug is safe in every file system: it is never empty, never too long, made of lower-case
/// letters, digits and single dashes, and neither begins nor ends with a dash.
pub proof fn slugs_are_safe_names(title: Seq<char>)
    ensures
        slug_chars(slug_of(title)),
        single_dashes(slug_of(title)),
        0 < slug_of(title).len() <= SLUG_CHARS,
        slug_of(title)[0] != '-',
        slug_of(title).last() != '-',
{
    lemma_dashed(title);
    let s = undashed(dashed(title));
    lemma_undashed(dashed(title));
    let head = if s.len() <= SLUG_CHARS {
        s
    } else {
        s.take(SLUG_CHARS as int)
    };
    lemma_undashed(head);
    reveal_strlit("artifact");
}

/// A title without a letter or digit of ASCII gives the name that stands for none.
pub proof fn titles_without_letters_have_one_name(title: Seq<char>)
    requires
        forall|i: int| 0 <= i < title.len() ==> !plain(#[trigger] title[i]),
    ensures
        slug_of(title) == "artifact"@,
{
    lemma_nothing_dashed(title);
}

proof fn lemma_nothing_dashed(s: Seq<char>)
    requires
        forall|i: int| 0 <= i < s.len() ==> !plain(#[trigger] s[i]),
    ensures
        dashed(s).len() == 0,
    decreases s.len(),
{
    if s.len() > 0 {
        assert(!plain(s[s.len() - 1]));
        assert forall|i: int| 0 <= i < s.drop_last().len() implies !plain(
            #[trigger] s.drop_last()[i],
        ) by {
            assert(!plain(s[i]));
        }
        lemma_nothing_dashed(s.drop_last());
    }
}

proof fn lemma_dashed_slug(s: Seq<char>)
    requires
        slug_chars(s),
        single_dashes(s),
        s.len() > 0 ==> s[0] != '-',
    ensures
        dashed(s) == s,
    decreases s.len(),
{
    if s.len() > 0 {
        let d = s.drop_last();
        assert forall|i: int| 0 <= i < d.len() implies slug_char(#[trigger] d[i]) by {
            assert(slug_char(s[i]));
        }
        assert forall|i: int| 0 <= i && i + 1 < d.len() && #[trigger] d[i] == '-' implies d[i + 1]
            != '-' by {
            assert(s[i] == '-');
        }
        lemma_dashed_slug(d);
        assert(slug_char(s[s.len() - 1]));
        if s.len() > 1 {
            assert(d.last() == s[s.len() - 2]);
        }
        assert(d.push(s.last()) =~= s);
    }
}

/// A slug is its own slug.
pub proof fn slugs_stay_as_they_are(title: Seq<char>)
    ensures
        slug_of(slug_of(title)) == slug_of(title),
{
    slugs_are_safe_names(title);
    lemma_dashed_slug(slug_of(title));
}

// ---- rendering -------------------------------------------------------------------------------

/// A format for documents.
pub trait ArtifactRenderer {
    /// The extension of the format.
    spec fn ext(&self) -> Seq<char>;

    /// The document in the format.
    spec fn rendered(&self, doc: DocV) -> Seq<char>;

    /// The file extension, without a dot.
    fn extension(&self) -> (r: &str)
        ensures
            r@ == self.ext(),
    ;

    /// Renders a document.
    fn render(&self, doc: &ArtifactDoc) -> (r: String)
        ensures
            r@ == self.rendered(doc@),
    ;
}

/// Markdown with YAML front matter.
pub struct Markdown;

/// A line of the front matter.
pub open spec fn matter_line(key: Seq<char>, value: Seq<char>) -> Seq<char> {
    key + ": "@ + yaml_quoted(value) + "\n"@
}

/// The sources in the front matter.
pub open spec fn matter_sources(v: Seq<SourceV>) -> Seq<char>
    decreases v.len(),
{
    if v.len() == 0 {
        Seq::empty()
    } else {
        matter_sources(v.drop_last()) + "  - "@ + yaml_quoted(v.last().citation) + "\n"@
    }
}

/// A source at the document's end.
pub open spec fn source_entry(s: SourceV) -> Seq<char> {
    text::decimal(s.rank) + ". "@ + s.citation + "\n   `"@ + s.source_path + "`"@ + (match s.page {
        Some(p) => " (p."@ + text::decimal(p as nat) + ")"@,
        None => Seq::empty(),
    }) + "\n"@
}

/// The sources at the document's end.
pub open spec fn source_entries(v: Seq<SourceV>) -> Seq<char>
    decreases v.len(),
{
    if v.len() == 0 {
        Seq::empty()
    } else {
        source_entries(v.drop_last()) + source_entry(v.last())
    }
}

/// The front matter of a document.
pub open spec fn front_matter(d: DocV) -> Seq<char> {
    "---\n"@ + matter_line("title"@, text::trim(d.question)) + matter_line(
        "created"@,
        text::trim(d.created),
    ) + matter_line("model"@, text::trim(d.model)) + matter_line(
        "collection"@,
        text::trim(d.collection),
    ) + (if d.sources.len() == 0 {
        "sources: []\n"@
    } else {
        "sources:\n"@ + matter_sources(d.sources)
    }) + "---\n\n"@
}

/// A document as Markdown.
pub open spec fn markdown(d: DocV) -> Seq<char> {
    front_matter(d) + "# "@ + text::trim(d.question) + "\n\n"@ + text::trim(d.answer)
        + "\n\n## Sources\n\n"@ + (if d.sources.len() == 0 {
        "_No sources retrieved._\n"@
    } else {
        source_entries(d.sources)
    })
}

fn write_matter_line(out: &mut String, key: &str, value: &str)
    ensures
        final(out)@ == old(out)@ + matter_line(key@, text::trim(value@)),
{
    out.append(key);
    out.append(": ");
    out.append(yaml_quote(text::trim_str(value).as_str()).as_str());
    out.append("\n");
    assert(out@ =~= old(out)@ + matter_line(key@, text::trim(value@)));
}

fn write_front_matter(doc: &ArtifactDoc) -> (r: String)
    ensures
        r@ == front_matter(doc@),
{
    let mut out = "---\n".to_owned();
    write_matter_line(&mut out, "title", doc.question.as_str());
    write_matter_line(&mut out, "created", doc.created.as_str());
    write_matter_line(&mut out, "model", doc.model.as_str());
    write_matter_line(&mut out, "collection", doc.collection.as_str());
    let ghost all = doc@.sources;
    assert(all.len() == doc.sources@.len());
    let mut list = String::new();
    assert(list@ =~= matter_sources(all.take(0)));
    for i in 0..doc.sources.len()
        invariant
            all == rows::vals(doc.sources@),
            list@ == matter_sources(all.take(i as int)),
    {
        proof {
            assert(all.take(i + 1).drop_last() =~= all.take(i as int));
            assert(all.take(i + 1).last() == doc.sources@[i as int]@);
        }
        list.append("  - ");
        list.append(yaml_quote(doc.sources[i].citation.as_str()).as_str());
        list.append("\n");
    }
    assert(all.take(all.len() as int) =~= all);
    if doc.sources.len() == 0 {
        out.append("sources: []\n");
    } else {
        let mut part = "sources:\n".to_owned();
        part.append(list.as_str());
        out.append(part.as_str());
    }
    out.append("---\n\n");
    out
}

fn write_source(s: &Source) -> (r: String)
    ensures
        r@ == source_entry(s@),
{
    let mut out = text::decimal_of(s.rank as u64);
    out.append(". ");
    out.append(s.citation.as_str());
    out.append("\n   `");
    out.append(s.source_path.as_str());
    out.append("`");
    if let Some(p) = s.page {
        let mut place = " (p.".to_owned();
        place.append(text::decimal_of(p as u64).as_str());
        place.append(")");
        out.append(place.as_str());
    }
    out.append("\n");
    assert(out@ =~= source_entry(s@));
    out
}

impl ArtifactRenderer for Markdown {
    open spec fn ext(&self) -> Seq<char> {
        "md"@
    }

    open spec fn rendered(&self, doc: DocV) -> Seq<char> {
        markdown(doc)
    }

    fn extension(&self) -> (r: &str) {
        "md"
    }

    fn render(&self, doc: &ArtifactDoc) -> (r: String) {
        let mut out = write_front_matter(doc);
        out.append("# ");
        out.append(text::trim_str(doc.question.as_str()).as_str());
        out.append("\n\n");
        out.append(text::trim_str(doc.answer.as_str()).as_str());
        out.append("\n\n## Sources\n\n");
        let ghost all = doc@.sources;
        assert(all.len() == doc.sources@.len());
        let mut list = String::new();
        assert(list@ =~= source_entries(all.take(0)));
        for i in 0..doc.sources.len()
            invariant
                all == rows::vals(doc.sources@),
                list@ == source_entries(all.take(i as int)),
        {
            proof {
                assert(all.take(i + 1).drop_last() =~= all.take(i as int));
                assert(all.take(i + 1).last() == doc.sources@[i as int]@);
            }
            list.append(write_source(&doc.sources[i]).as_str());
        }
        assert(all.take(all.len() as int) =~= all);
        if doc.sources.len() == 0 {
            out.append("_No sources retrieved._\n");
        } else {
            out.append(list.as_str());
        }
        out
    }
}

// ---- file names ------------------------------------------------------------------------------

/// The `n`th name for a slug, from one: the first has no number.
pub open spec fn file_name(slug: Seq<char>, ext: Seq<char>, n: nat) -> Seq<char> {
    if n <= 1 {
        slug + "."@ + ext
    } else {
        slug + "-"@ + text::decimal(n) + "."@ + ext
    }
}

/// The first name from the `n`th on that is not taken.
pub open spec fn is_free_name(
    slug: Seq<char>,
    ext: Seq<char>,
    taken: Seq<Seq<char>>,
    name: Seq<char>,
) -> bool {
    exists|n: nat|
        1 <= n && name == #[trigger] file_name(slug, ext, n) && !taken.contains(name) && forall|
            k: nat,
        |
            1 <= k < n ==> taken.contains(#[trigger] file_name(slug, ext, k))
}

proof fn lemma_names_differ(slug: Seq<char>, ext: Seq<char>, i: nat, j: nat)
    requires
        1 <= i < j,
    ensures
        file_name(slug, ext, i) != file_name(slug, ext, j),
{
    reveal_strlit(".");
    reveal_strlit("-");
    let a = file_name(slug, ext, i);
    let b = file_name(slug, ext, j);
    if i == 1 {
        text::lemma_decimal_value(j);
        if a == b {
            assert(a.len() == slug.len() + 1 + ext.len());
            assert(b.len() == slug.len() + 1 + text::decimal(j).len() + 1 + ext.len());
        }
    } else {
        text::lemma_decimal_value(i);
        text::lemma_decimal_value(j);
        if a == b {
            let di = text::decimal(i);
            let dj = text::decimal(j);
            assert(a.len() == slug.len() + 1 + di.len() + 1 + ext.len());
            assert(b.len() == slug.len() + 1 + dj.len() + 1 + ext.len());
            assert(a.subrange(slug.len() as int + 1, slug.len() as int + 1 + di.len()) =~= di);
            assert(b.subrange(slug.len() as int + 1, slug.len() as int + 1 + dj.len()) =~= dj);
        }
    }
}

/// The first `n` names for a slug.
pub open spec fn first_names(slug: Seq<char>, ext: Seq<char>, n: nat) -> Seq<Seq<char>> {
    Seq::new(n, |i: int| file_name(slug, ext, (i + 1) as nat))
}

proof fn lemma_not_all_taken(slug: Seq<char>, ext: Seq<char>, taken: Seq<Seq<char>>, n: nat)
    requires
        forall|k: nat| 1 <= k <= n ==> taken.contains(#[trigger] file_name(slug, ext, k)),
    ensures
        n <= taken.len(),
{
    let names = first_names(slug, ext, n);
    assert(names.no_duplicates()) by {
        assert forall|i: int, j: int| 0 <= i < j < names.len() implies names[i] != names[j] by {
            lemma_names_differ(slug, ext, (i + 1) as nat, (j + 1) as nat);
        }
    }
    names.unique_seq_to_set();
    seq_to_set_is_finite(taken);
    assert(names.to_set().subset_of(taken.to_set())) by {
        assert forall|x: Seq<char>| names.to_set().contains(x) implies taken.to_set().contains(
            x,
        ) by {
            assert(names.contains(x));
            let i = choose|i: int| 0 <= i < names.len() && names[i] == x;
            assert(taken.contains(file_name(slug, ext, (i + 1) as nat)));
        }
    }
    vstd::set_lib::lemma_len_subset(names.to_set(), taken.to_set());
    taken.lemma_cardinality_of_set();
}

/// The name under which a document is kept in a directory that holds the names taken: that of its
/// title, with a number where it is taken already.
pub fn artifact_name<R: ArtifactRenderer>(renderer: &R, doc: &ArtifactDoc, taken: &Vec<String>) -> (r:
    String)
    requires
        taken@.len() < usize::MAX,
    ensures
        is_free_name(slug_of(doc@.question), renderer.ext(), text::texts(taken@), r@),
{
    let slug = slugify(doc.question.as_str());
    let ghost t = text::texts(taken@);
    let ext = renderer.extension();
    let mut name = slug.clone();
    name.append(".");
    name.append(ext);
    let mut n: u64 = 1;
    while order::holds(taken, name.as_str())
        invariant
            t == text::texts(taken@),
            t.len() == taken@.len(),
            taken@.len() < usize::MAX,
            1 <= n,
            ext@ == renderer.ext(),
            slug@ == slug_of(doc@.question),
            name@ == file_name(slug@, ext@, n as nat),
            forall|k: nat| 1 <= k < n ==> t.contains(#[trigger] file_name(slug@, ext@, k)),
        decreases t.len() + 1 - n,
    {
        proof {
            assert forall|k: nat| 1 <= k <= n implies t.contains(
                #[trigger] file_name(slug@, ext@, k),
            ) by {
                if k == n {
                    assert(t.contains(name@));
                }
            }
            lemma_not_all_taken(slug@, ext@, t, n as nat);
        }
        n = n + 1;
        name = slug.clone();
        name.append("-");
        name.append(text::decimal_of(n).as_str());
        name.append(".");
        name.append(ext);
    }
    assert(name@ == file_name(slug@, ext@, n as nat));
    name
}

/// What is to be written, and where: a document in a directory that holds the names taken, under a
/// name that clobbers none of them.
pub fn write_artifact<R: ArtifactRenderer>(
    renderer: &R,
    doc: &ArtifactDoc,
    dir: &str,
    taken: &Vec<String>,
) -> (r: (String, String))
    requires
        taken@.len() < usize::MAX,
    ensures
        exists|name: Seq<char>|
            r.0@ == #[trigger] convert::path_under(dir@, name) && is_free_name(
                slug_of(doc@.question),
                renderer.ext(),
                text::texts(taken@),
                name,
            ),
        r.1@ == renderer.rendered(doc@),
{
    let name = artifact_name(renderer, doc, taken);
    let path = convert::join_path(dir, name.as_str());
    assert(path@ == convert::path_under(dir@, name@));
    (path, renderer.render(doc))
}

} // verus!
