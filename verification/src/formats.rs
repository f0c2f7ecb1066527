//! File formats, told from file names.
use vstd::prelude::*;
use crate::text;

verus! {

/// Source file format family of a book. It drives only the shape of citations and diagnostics.
#[derive(Debug, Clone, Copy, PartialEq, Eq, Structural)]
pub enum Format {
    Pdf,
    Epub,
    Mobi,
    Md,
    Txt,
    Html,
    Docx,
    Rtf,
    Odt,
    Doc,
    Fb2,
    Pages,
    Webarchive,
    Djvu,
    Xps,
}

/// The file extensions the application knows about: without dots, in lower case, compound ones
/// among them.
pub const KNOWN_EXTS: [&'static str; 25] = [
    "pdf",
    "epub",
    "mobi",
    "azw3",
    "md",
    "markdown",
    "txt",
    "text",
    "rst",
    "adoc",
    "org",
    "tex",
    "ipynb",
    "html",
    "htm",
    "docx",
    "rtf",
    "odt",
    "doc",
    "fb2",
    "fb2.zip",
    "pages",
    "webarchive",
    "djvu",
    "xps",
];

/// The extensions ingest accepts.
pub const INGEST_EXTS: [&'static str; 3] = ["pdf", "md", "txt"];

/// A character that separates the parts of a path.
pub open spec fn is_sep(c: char) -> bool {
    c == '/' || c == '\\'
}

/// What follows the last separator of a path.
pub open spec fn base_name(s: Seq<char>) -> Seq<char>
    decreases s.len(),
{
    if s.len() == 0 || is_sep(s.last()) {
        Seq::empty()
    } else {
        base_name(s.drop_last()).push(s.last())
    }
}

/// A file name in lower case has the extension: something, a dot and the extension.
pub open spec fn has_ext(lower: Seq<char>, ext: Seq<char>) -> bool {
    lower.len() > ext.len() + 1 && text::ends(lower, seq!['.'] + ext)
}

/// The position of the longest of the first `n` known extensions that the file name has.
pub open spec fn longest_ext(lower: Seq<char>, n: nat) -> Option<int>
    decreases n,
{
    if n == 0 {
        None
    } else {
        let best = longest_ext(lower, (n - 1) as nat);
        if has_ext(lower, KNOWN_EXTS@[n - 1]@) && (best is None || KNOWN_EXTS@[best->0]@.len()
            <= KNOWN_EXTS@[n - 1]@.len()) {
            Some(n - 1)
        } else {
            best
        }
    }
}

/// The file name whose extension counts: the last part of the path, in lower case.
pub open spec fn lower_name(name: Seq<char>) -> Seq<char> {
    text::lower_ascii_all(base_name(name))
}

/// The extension of a file name: the longest known one that it has.
pub open spec fn ext_name(name: Seq<char>) -> Option<Seq<char>> {
    match longest_ext(lower_name(name), 25) {
        Some(i) => Some(KNOWN_EXTS@[i]@),
        None => None,
    }
}

/// The one extension-derivation rule: the file name in lower case, matched against the longest
/// known extension, so that `x.fb2.zip` is `fb2.zip` and never `zip`. Unknown is `None`.
pub fn ext_of(name: &str) -> (r: Option<&'static str>)
    ensures
        match r {
            Some(e) => ext_name(name@) == Some(e@),
            None => ext_name(name@) is None,
        },
{
    let v = text::chars_of(name);
    let mut start: usize = v.len();
    let ghost tail: Seq<char> = Seq::empty();
    while start > 0 && v[start - 1] != '/' && v[start - 1] != '\\'
        invariant
            start <= v@.len(),
            base_name(v@) == base_name(v@.take(start as int)) + v@.skip(start as int) || start
                == v@.len(),
        decreases start,
    {
        proof {
            let t = v@.take(start as int);
            assert(t.drop_last() =~= v@.take(start - 1));
            assert(v@.take(v@.len() as int) =~= v@);
            assert(base_name(t) + v@.skip(start as int) =~= base_name(v@.take(start - 1))
                + v@.skip(start - 1));
            assert(base_name(t) + v@.skip(v@.len() as int) =~= base_name(t));
        }
        start = start - 1;
    }
    proof {
        assert(v@.take(v@.len() as int) =~= v@);
        assert(base_name(v@.take(start as int)) =~= Seq::empty());
        assert(base_name(v@) =~= v@.skip(start as int));
        assert(v@.skip(start as int) =~= v@.subrange(start as int, v@.len() as int));
    }
    let lower = text::lower_ascii_chars(vstd::slice::slice_subrange(&v, start, v.len()));
    let mut best: Option<usize> = None;
    let known = KNOWN_EXTS;
    for i in 0..25usize
        invariant
            known == KNOWN_EXTS,
            lower@ == lower_name(name@),
            match best {
                Some(b) => b < i && longest_ext(lower@, i as nat) == Some(b as int),
                None => longest_ext(lower@, i as nat) is None,
            },
    {
        let e = text::chars_of(known[i]);
        let mut dotted: Vec<char> = Vec::new();
        dotted.push('.');
        text::push_chars(&mut dotted, &e);
        assert(dotted@ =~= seq!['.'] + e@);
        if e.len() < lower.len() && lower.len() - e.len() > 1 && text::ends_with(&lower, &dotted) {
            let better = match best {
                Some(b) => text::chars_of(known[b]).len() <= e.len(),
                None => true,
            };
            if better {
                best = Some(i);
            }
        }
    }
    match best {
        Some(b) => Some(known[b]),
        None => None,
    }
}

proof fn lemma_longest_ext(lower: Seq<char>, n: nat)
    requires
        n <= 25,
    ensures
        match longest_ext(lower, n) {
            Some(i) => 0 <= i < n && has_ext(lower, KNOWN_EXTS@[i]@) && forall|j: int|
                0 <= j < n && has_ext(lower, #[trigger] KNOWN_EXTS@[j]@) ==> KNOWN_EXTS@[j]@.len()
                    <= KNOWN_EXTS@[i]@.len(),
            None => forall|j: int| 0 <= j < n ==> !has_ext(lower, #[trigger] KNOWN_EXTS@[j]@),
        },
    decreases n,
{
    if n > 0 {
        lemma_longest_ext(lower, (n - 1) as nat);
    }
}

/// The extension of a name is a known one that it has, no known extension that it has is longer,
/// and a name without an extension has no known one.
pub proof fn extension_is_the_longest_match(name: Seq<char>, j: int)
    requires
        0 <= j < 25,
    ensures
        match ext_name(name) {
            Some(e) => has_ext(lower_name(name), e) && (exists|i: int|
                0 <= i < 25 && #[trigger] KNOWN_EXTS@[i]@ == e) && (has_ext(
                lower_name(name),
                KNOWN_EXTS@[j]@,
            ) ==> KNOWN_EXTS@[j]@.len() <= e.len()),
            None => !has_ext(lower_name(name), KNOWN_EXTS@[j]@),
        },
{
    lemma_longest_ext(lower_name(name), 25);
    match longest_ext(lower_name(name), 25) {
        Some(i) => {
            assert(KNOWN_EXTS@[i]@ == ext_name(name)->0);
        },
        None => {},
    }
}

/// The family of an extension in lower case; aliases belong to their family.
pub open spec fn family(e: Seq<char>) -> Option<Format> {
    if e == "pdf"@ {
        Some(Format::Pdf)
    } else if e == "epub"@ {
        Some(Format::Epub)
    } else if e == "mobi"@ || e == "azw3"@ {
        Some(Format::Mobi)
    } else if e == "md"@ || e == "markdown"@ || e == "ipynb"@ {
        Some(Format::Md)
    } else if e == "txt"@ || e == "text"@ || e == "rst"@ || e == "adoc"@ || e == "org"@ || e == "tex"@ {
        Some(Format::Txt)
    } else if e == "html"@ || e == "htm"@ {
        Some(Format::Html)
    } else if e == "docx"@ {
        Some(Format::Docx)
    } else if e == "rtf"@ {
        Some(Format::Rtf)
    } else if e == "odt"@ {
        Some(Format::Odt)
    } else if e == "doc"@ {
        Some(Format::Doc)
    } else if e == "fb2"@ || e == "fb2.zip"@ {
        Some(Format::Fb2)
    } else if e == "pages"@ {
        Some(Format::Pages)
    } else if e == "webarchive"@ {
        Some(Format::Webarchive)
    } else if e == "djvu"@ {
        Some(Format::Djvu)
    } else if e == "xps"@ {
        Some(Format::Xps)
    } else {
        None
    }
}

impl Format {
    /// The stored name of the format.
    pub open spec fn name(self) -> Seq<char> {
        match self {
            Format::Pdf => "pdf"@,
            Format::Epub => "epub"@,
            Format::Mobi => "mobi"@,
            Format::Md => "md"@,
            Format::Txt => "txt"@,
            Format::Html => "html"@,
            Format::Docx => "docx"@,
            Format::Rtf => "rtf"@,
            Format::Odt => "odt"@,
            Format::Doc => "doc"@,
            Format::Fb2 => "fb2"@,
            Format::Pages => "pages"@,
            Format::Webarchive => "webarchive"@,
            Format::Djvu => "djvu"@,
            Format::Xps => "xps"@,
        }
    }

    /// The format of an extension as given by [`ext_of`], in any case.
    pub fn from_ext(ext: &str) -> (r: Option<Self>)
        ensures
            r == family(text::lower_ascii_all(ext@)),
    {
        let v = text::lower_ascii_chars(&text::chars_of(ext));
        let e = text::string_of(&v);
        let e = e.as_str();
        if text::same_text(e, "pdf") {
            Some(Format::Pdf)
        } else if text::same_text(e, "epub") {
            Some(Format::Epub)
        } else if text::same_text(e, "mobi") || text::same_text(e, "azw3") {
            Some(Format::Mobi)
        } else if text::same_text(e, "md") || text::same_text(e, "markdown") || text::same_text(e, "ipynb") {
            Some(Format::Md)
        } else if text::same_text(e, "txt") || text::same_text(e, "text") || text::same_text(e, "rst") || text::same_text(e, "adoc") || text::same_text(e, "org") || text::same_text(e, "tex") {
            Some(Format::Txt)
        } else if text::same_text(e, "html") || text::same_text(e, "htm") {
            Some(Format::Html)
        } else if text::same_text(e, "docx") {
            Some(Format::Docx)
        } else if text::same_text(e, "rtf") {
            Some(Format::Rtf)
        } else if text::same_text(e, "odt") {
            Some(Format::Odt)
        } else if text::same_text(e, "doc") {
            Some(Format::Doc)
        } else if text::same_text(e, "fb2") || text::same_text(e, "fb2.zip") {
            Some(Format::Fb2)
        } else if text::same_text(e, "pages") {
            Some(Format::Pages)
        } else if text::same_text(e, "webarchive") {
            Some(Format::Webarchive)
        } else if text::same_text(e, "djvu") {
            Some(Format::Djvu)
        } else if text::same_text(e, "xps") {
            Some(Format::Xps)
        } else {
            None
        }
    }

    /// The format of a file, from its path or name.
    pub fn from_path(name: &str) -> (r: Option<Self>)
        ensures
            r == format_of(name@),
    {
        match ext_of(name) {
            Some(e) => Self::from_ext(e),
            None => None,
        }
    }

    pub fn as_str(self) -> (r: &'static str)
        ensures
            r@ == self.name(),
    {
        match self {
            Format::Pdf => "pdf",
            Format::Epub => "epub",
            Format::Mobi => "mobi",
            Format::Md => "md",
            Format::Txt => "txt",
            Format::Html => "html",
            Format::Docx => "docx",
            Format::Rtf => "rtf",
            Format::Odt => "odt",
            Format::Doc => "doc",
            Format::Fb2 => "fb2",
            Format::Pages => "pages",
            Format::Webarchive => "webarchive",
            Format::Djvu => "djvu",
            Format::Xps => "xps",
        }
    }

    /// Every format.
    pub const ALL: [Format; 15] = [
        Format::Pdf,
        Format::Epub,
        Format::Mobi,
        Format::Md,
        Format::Txt,
        Format::Html,
        Format::Docx,
        Format::Rtf,
        Format::Odt,
        Format::Doc,
        Format::Fb2,
        Format::Pages,
        Format::Webarchive,
        Format::Djvu,
        Format::Xps,
    ];
}

/// The format of a file name.
pub open spec fn format_of(name: Seq<char>) -> Option<Format> {
    match ext_name(name) {
        Some(e) => family(text::lower_ascii_all(e)),
        None => None,
    }
}

/// A stored format name reads back as the format it was written for.
pub proof fn format_names_round_trip(f: Format)
    ensures
        family(text::lower_ascii_all(f.name())) == Some(f),
{
    reveal_strlit("pdf");
    reveal_strlit("epub");
    reveal_strlit("mobi");
    reveal_strlit("azw3");
    reveal_strlit("md");
    reveal_strlit("markdown");
    reveal_strlit("txt");
    reveal_strlit("text");
    reveal_strlit("rst");
    reveal_strlit("adoc");
    reveal_strlit("org");
    reveal_strlit("tex");
    reveal_strlit("ipynb");
    reveal_strlit("html");
    reveal_strlit("htm");
    reveal_strlit("docx");
    reveal_strlit("rtf");
    reveal_strlit("odt");
    reveal_strlit("doc");
    reveal_strlit("fb2");
    reveal_strlit("fb2.zip");
    reveal_strlit("pages");
    reveal_strlit("webarchive");
    reveal_strlit("djvu");
    reveal_strlit("xps");
    assert(text::lower_ascii_all(f.name()) =~= f.name());
    assert("pdf"@ =~= seq!['p', 'd', 'f']);
    assert("epub"@ =~= seq!['e', 'p', 'u', 'b']);
    assert("mobi"@ =~= seq!['m', 'o', 'b', 'i']);
    assert("azw3"@ =~= seq!['a', 'z', 'w', '3']);
    assert("md"@ =~= seq!['m', 'd']);
    assert("markdown"@ =~= seq!['m', 'a', 'r', 'k', 'd', 'o', 'w', 'n']);
    assert("txt"@ =~= seq!['t', 'x', 't']);
    assert("text"@ =~= seq!['t', 'e', 'x', 't']);
    assert("rst"@ =~= seq!['r', 's', 't']);
    assert("adoc"@ =~= seq!['a', 'd', 'o', 'c']);
    assert("org"@ =~= seq!['o', 'r', 'g']);
    assert("tex"@ =~= seq!['t', 'e', 'x']);
    assert("ipynb"@ =~= seq!['i', 'p', 'y', 'n', 'b']);
    assert("html"@ =~= seq!['h', 't', 'm', 'l']);
    assert("htm"@ =~= seq!['h', 't', 'm']);
    assert("docx"@ =~= seq!['d', 'o', 'c', 'x']);
    assert("rtf"@ =~= seq!['r', 't', 'f']);
    assert("odt"@ =~= seq!['o', 'd', 't']);
    assert("doc"@ =~= seq!['d', 'o', 'c']);
    assert("fb2"@ =~= seq!['f', 'b', '2']);
    assert("fb2.zip"@ =~= seq!['f', 'b', '2', '.', 'z', 'i', 'p']);
    assert("pages"@ =~= seq!['p', 'a', 'g', 'e', 's']);
    assert("webarchive"@ =~= seq!['w', 'e', 'b', 'a', 'r', 'c', 'h', 'i', 'v', 'e']);
    assert("djvu"@ =~= seq!['d', 'j', 'v', 'u']);
    assert("xps"@ =~= seq!['x', 'p', 's']);
}

/// Every extension ingest accepts is a known one and belongs to a format.
pub proof fn ingest_extensions_are_known(i: int)
    requires
        0 <= i < 3,
    ensures
        exists|j: int| 0 <= j < 25 && #[trigger] KNOWN_EXTS@[j]@ == INGEST_EXTS@[i]@,
        family(INGEST_EXTS@[i]@) is Some,
{
    assert(KNOWN_EXTS@[0]@ == "pdf"@);
    assert(KNOWN_EXTS@[4]@ == "md"@);
    assert(KNOWN_EXTS@[6]@ == "txt"@);
}

/// The extension is one that ingest accepts.
pub open spec fn ingests(e: Seq<char>) -> bool {
    exists|i: int| 0 <= i < 3 && #[trigger] INGEST_EXTS@[i]@ == e
}

/// The file has an extension that ingest accepts.
pub open spec fn supported(path: Seq<char>) -> bool {
    ext_name(path) is Some && ingests(ext_name(path)->0)
}

/// Whether ingest accepts the file.
pub fn is_supported(path: &str) -> (r: bool)
    ensures
        r == supported(path@),
{
    match ext_of(path) {
        None => false,
        Some(e) => {
            let accepted = INGEST_EXTS;
            for i in 0..3usize
                invariant
                    accepted == INGEST_EXTS,
                    ext_name(path@) == Some(e@),
                    forall|j: int| 0 <= j < i ==> #[trigger] INGEST_EXTS@[j]@ != e@,
            {
                if text::same_text(accepted[i], e) {
                    assert(INGEST_EXTS@[i as int]@ == e@);
                    return true;
                }
            }
            false
        },
    }
}

/// The texts of a list of string constants.
pub open spec fn strs(v: Seq<&'static str>) -> Seq<Seq<char>> {
    Seq::new(v.len(), |i: int| v[i]@)
}

/// Human-readable list of the extensions ingest accepts, for error messages.
pub fn supported_exts_display() -> (r: String)
    ensures
        r@ == text::join(strs(INGEST_EXTS@), ", "@),
{
    let v = owned(&INGEST_EXTS);
    text::join_strs(&v, ", ")
}

fn owned(v: &[&'static str]) -> (r: Vec<String>)
    ensures
        text::texts(r@) == strs(v@),
{
    let mut out: Vec<String> = Vec::new();
    for i in 0..v.len()
        invariant
            text::texts(out@) == strs(v@).take(i as int),
    {
        let s = v[i].to_owned();
        proof {
            text::lemma_texts_push(out@, s);
            assert(strs(v@).take(i as int + 1) =~= strs(v@).take(i as int).push(v@[i as int]@));
        }
        out.push(s);
    }
    assert(strs(v@).take(v@.len() as int) =~= strs(v@));
    out
}

/// A text in double quotes.
pub open spec fn quoted(s: Seq<char>) -> Seq<char> {
    seq!['"'] + s + seq!['"']
}

/// The name of an extension's family.
pub open spec fn family_name(e: Seq<char>) -> Seq<char> {
    match family(text::lower_ascii_all(e)) {
        Some(f) => f.name(),
        None => "other"@,
    }
}

/// One line of the extension-to-family table.
pub open spec fn family_line(e: Seq<char>) -> Seq<char> {
    "  "@ + quoted(e) + ": "@ + quoted(family_name(e)) + ","@
}

fn quote(s: &str) -> (r: String)
    ensures
        r@ == quoted(s@),
{
    let mut out = String::new();
    out.push('"');
    out.append(s);
    out.push('"');
    assert(out@ =~= quoted(s@));
    out
}

fn quoted_list(v: &[&'static str]) -> (r: String)
    ensures
        r@ == text::join(strs(v@).map_values(|e: Seq<char>| quoted(e)), ", "@),
{
    let ghost f = |e: Seq<char>| quoted(e);
    let ghost all = strs(v@).map_values(f);
    let mut out: Vec<String> = Vec::new();
    for i in 0..v.len()
        invariant
            f == (|e: Seq<char>| quoted(e)),
            all == strs(v@).map_values(f),
            text::texts(out@) == all.take(i as int),
    {
        let s = quote(v[i]);
        proof {
            text::lemma_texts_push(out@, s);
            assert(all.take(i as int + 1) =~= all.take(i as int).push(quoted(v@[i as int]@)));
        }
        out.push(s);
    }
    assert(all.take(v@.len() as int) =~= all);
    text::join_strs(&out, ", ")
}

fn family_table(v: &[&'static str]) -> (r: String)
    ensures
        r@ == text::join(strs(v@).map_values(|e: Seq<char>| family_line(e)), "\n"@),
{
    let ghost f = |e: Seq<char>| family_line(e);
    let ghost all = strs(v@).map_values(f);
    let mut out: Vec<String> = Vec::new();
    for i in 0..v.len()
        invariant
            f == (|e: Seq<char>| family_line(e)),
            all == strs(v@).map_values(f),
            text::texts(out@) == all.take(i as int),
    {
        let fam = match Format::from_ext(v[i]) {
            Some(f) => f.as_str(),
            None => "other",
        };
        let mut s = "  ".to_owned();
        s.append(quote(v[i]).as_str());
        s.append(": ");
        s.append(quote(fam).as_str());
        s.append(",");
        proof {
            text::lemma_texts_push(out@, s);
            assert(all.take(i as int + 1) =~= all.take(i as int).push(family_line(v@[i as int]@)));
        }
        out.push(s);
    }
    assert(all.take(v@.len() as int) =~= all);
    text::join_strs(&out, "\n")
}

pub const TS_HEAD: &'static str = "// GENERATED from ls-core by `cargo run -p ls-cli -- gen-exts`. DO NOT EDIT:\n// a Rust test asserts this file is byte-identical to the generator's output.\nexport const KNOWN_EXTS = [";

pub const TS_INGEST: &'static str = "] as const;\nexport const INGEST_EXTS = [";

pub const TS_FAMILY: &'static str = "] as const;\n/// Extension -> format family (citation shape / reader-kind routing).\nexport const EXT_FAMILY: Record<string, string> = {\n";

pub const TS_TAIL: &'static str = "\n};\n/// The one extension-derivation rule: lowercase, LONGEST match against\n/// KNOWN_EXTS (\"x.fb2.zip\" is \"fb2.zip\", never \"zip\"). Unknown -> null.\nexport function extOf(name: string): string | null {\n  const lower = (name.split(/[\\\\/]/).pop() ?? name).toLowerCase();\n  let best: string | null = null;\n  for (const e of KNOWN_EXTS) {\n    if (\n      lower.length > e.length + 1 &&\n      lower.endsWith(e) &&\n      lower[lower.length - e.length - 1] === \".\"\n    ) {\n      if (!best || e.length > best.length) best = e;\n    }\n  }\n  return best;\n}\n";

/// The generated frontend map, from its fixed parts and the two extension lists.
pub open spec fn supported_exts_ts() -> Seq<char> {
    TS_HEAD@ + text::join(strs(KNOWN_EXTS@).map_values(|e: Seq<char>| quoted(e)), ", "@)
        + TS_INGEST@ + text::join(
        strs(INGEST_EXTS@).map_values(|e: Seq<char>| quoted(e)),
        ", "@,
    ) + TS_FAMILY@ + text::join(
        strs(KNOWN_EXTS@).map_values(|e: Seq<char>| family_line(e)),
        "\n"@,
    ) + TS_TAIL@
}

/// Renders the frontend's only source of extension knowledge.
pub fn gen_supported_exts_ts() -> (r: String)
    ensures
        r@ == supported_exts_ts(),
{
    let mut out = TS_HEAD.to_owned();
    out.append(quoted_list(&KNOWN_EXTS).as_str());
    out.append(TS_INGEST);
    out.append(quoted_list(&INGEST_EXTS).as_str());
    out.append(TS_FAMILY);
    out.append(family_table(&KNOWN_EXTS).as_str());
    out.append(TS_TAIL);
    out
}

} // verus!
