//! The rows of the passage store: how passages are written and read back, and what scans of the
//! store are summed up to. The store itself keeps neither missing authors and chapters nor missing
//! pages, so these have stand-ins.
use vstd::prelude::*;
use crate::chunk::{Chunk, ChunkV};
use crate::formats;
use crate::formats::Format;
use crate::rows;
use crate::text;
use crate::unicode;

verus! {

/// The dimension of embeddings.
pub const VECTOR_DIM: i32 = 1024;

/// The page of a passage without one.
pub const NULL_PAGE: i64 = -1;

/// Why the store failed.
#[derive(Debug, PartialEq, Eq)]
pub enum StoreError {
    /// The store itself.
    Lance(String),
    /// The stream of results.
    Stream(String),
    /// The shape of rows.
    Schema(String),
}

impl StoreError {
    /// The message of the error.
    pub fn message(&self) -> (r: String)
        ensures
            r@ == (match *self {
                StoreError::Lance(e) => e@,
                StoreError::Stream(e) => "result stream: "@ + e@,
                StoreError::Schema(e) => "schema: "@ + e@,
            }),
    {
        match self {
            StoreError::Lance(e) => e.clone(),
            StoreError::Stream(e) => {
                let mut s = "result stream: ".to_owned();
                s.append(e.as_str());
                s
            },
            StoreError::Schema(e) => {
                let mut s = "schema: ".to_owned();
                s.append(e.as_str());
                s
            },
        }
    }
}

/// A row of the store without its vector.
#[derive(Debug, PartialEq, Eq)]
pub struct StoreRow {
    pub id: String,
    pub book_id: String,
    pub title: String,
    pub author: String,
    pub source_path: String,
    pub format: String,
    pub chapter: String,
    pub page: i64,
    pub loc_start: i64,
    pub loc_end: i64,
    pub text: String,
}

/// What a [`StoreRow`] holds.
#[verifier::ext_equal]
pub struct RowV {
    pub id: Seq<char>,
    pub book_id: Seq<char>,
    pub title: Seq<char>,
    pub author: Seq<char>,
    pub source_path: Seq<char>,
    pub format: Seq<char>,
    pub chapter: Seq<char>,
    pub page: i64,
    pub loc_start: i64,
    pub loc_end: i64,
    pub text: Seq<char>,
}

impl View for StoreRow {
    type V = RowV;

    open spec fn view(&self) -> RowV {
        RowV {
            id: self.id@,
            book_id: self.book_id@,
            title: self.title@,
            author: self.author@,
            source_path: self.source_path@,
            format: self.format@,
            chapter: self.chapter@,
            page: self.page,
            loc_start: self.loc_start,
            loc_end: self.loc_end,
            text: self.text@,
        }
    }
}

/// A passage read back from the store.
#[derive(Debug, PartialEq, Eq)]
pub struct RetrievedChunk {
    pub id: String,
    pub book_id: String,
    pub title: String,
    pub author: Option<String>,
    pub source_path: String,
    pub format: Option<Format>,
    pub chapter: Option<String>,
    pub page: Option<u32>,
    pub loc_start: i64,
    pub loc_end: i64,
    pub text: String,
}

/// What a [`RetrievedChunk`] holds.
#[verifier::ext_equal]
pub struct RetrievedV {
    pub id: Seq<char>,
    pub book_id: Seq<char>,
    pub title: Seq<char>,
    pub author: Option<Seq<char>>,
    pub source_path: Seq<char>,
    pub format: Option<Format>,
    pub chapter: Option<Seq<char>>,
    pub page: Option<u32>,
    pub loc_start: i64,
    pub loc_end: i64,
    pub text: Seq<char>,
}

impl View for RetrievedChunk {
    type V = RetrievedV;

    open spec fn view(&self) -> RetrievedV {
        RetrievedV {
            id: self.id@,
            book_id: self.book_id@,
            title: self.title@,
            author: text::opt_text(self.author),
            source_path: self.source_path@,
            format: self.format,
            chapter: text::opt_text(self.chapter),
            page: self.page,
            loc_start: self.loc_start,
            loc_end: self.loc_end,
            text: self.text@,
        }
    }
}

impl RetrievedChunk {
    /// The same passage once more.
    pub fn copy(&self) -> (r: Self)
        ensures
            r@ == self@,
    {
        RetrievedChunk {
            id: self.id.clone(),
            book_id: self.book_id.clone(),
            title: self.title.clone(),
            author: crate::types::copy_opt(&self.author),
            source_path: self.source_path.clone(),
            format: self.format,
            chapter: crate::types::copy_opt(&self.chapter),
            page: self.page,
            loc_start: self.loc_start,
            loc_end: self.loc_end,
            text: self.text.clone(),
        }
    }
}

/// A text that may be missing, as it is stored.
pub open spec fn or_empty(o: Option<Seq<char>>) -> Seq<char> {
    match o {
        Some(s) => s,
        None => Seq::empty(),
    }
}

/// A stored text: empty is missing.
pub open spec fn non_empty(s: Seq<char>) -> Option<Seq<char>> {
    if s.len() > 0 {
        Some(s)
    } else {
        None
    }
}

/// A stored page: negative is missing.
pub open spec fn page_of(p: i64) -> Option<u32> {
    if p < 0 {
        None
    } else {
        Some(p as u32)
    }
}

/// A passage as it is stored.
pub open spec fn stored(c: ChunkV) -> RowV {
    RowV {
        id: c.id,
        book_id: c.book_id,
        title: c.title,
        author: or_empty(c.author),
        source_path: c.source_path,
        format: c.format.name(),
        chapter: or_empty(c.chapter),
        page: match c.page {
            Some(p) => p as i64,
            None => NULL_PAGE,
        },
        loc_start: c.loc_start as i64,
        loc_end: c.loc_end as i64,
        text: c.text,
    }
}

/// A row as a passage to search in.
pub open spec fn retrieved(r: RowV) -> RetrievedV {
    RetrievedV {
        id: r.id,
        book_id: r.book_id,
        title: r.title,
        author: non_empty(r.author),
        source_path: r.source_path,
        format: formats::family(text::lower_ascii_all(r.format)),
        chapter: non_empty(r.chapter),
        page: page_of(r.page),
        loc_start: r.loc_start,
        loc_end: r.loc_end,
        text: r.text,
    }
}

/// A row as a passage to store again.
pub open spec fn imported(r: RowV) -> ChunkV {
    ChunkV {
        id: r.id,
        book_id: r.book_id,
        title: r.title,
        author: non_empty(r.author),
        source_path: r.source_path,
        format: match formats::family(text::lower_ascii_all(r.format)) {
            Some(f) => f,
            None => Format::Pdf,
        },
        chapter: non_empty(r.chapter),
        page: page_of(r.page),
        loc_start: (r.loc_start as usize) as nat,
        loc_end: (r.loc_end as usize) as nat,
        text: r.text,
    }
}

#[verifier::truncate]
fn offset_in(n: usize) -> (r: i64)
    ensures
        r == (n as nat) as i64,
{
    n as i64
}

#[verifier::truncate]
fn offset_out(n: i64) -> (r: usize)
    ensures
        r == n as usize,
{
    n as usize
}

/// A stored page: negative is missing.
#[verifier::truncate]
pub fn page_out(p: i64) -> (r: Option<u32>)
    ensures
        r == page_of(p),
{
    if p < 0 {
        None
    } else {
        Some(p as u32)
    }
}

fn text_or_empty(o: &Option<String>) -> (r: String)
    ensures
        r@ == or_empty(text::opt_text(*o)),
{
    match o {
        Some(s) => s.clone(),
        None => {
            let s = String::new();
            assert(s@ =~= Seq::empty());
            s
        },
    }
}

/// A stored text: empty is missing.
pub fn text_or_none(s: &String) -> (r: Option<String>)
    ensures
        text::opt_text(r) == non_empty(s@),
{
    if s.as_str().unicode_len() > 0 {
        Some(s.clone())
    } else {
        None
    }
}

/// A passage as it is stored.
pub fn row_of_chunk(c: &Chunk) -> (r: StoreRow)
    ensures
        r@ == stored(c@),
{
    StoreRow {
        id: c.id.clone(),
        book_id: c.book_id.clone(),
        title: c.title.clone(),
        author: text_or_empty(&c.author),
        source_path: c.source_path.clone(),
        format: c.format.as_str().to_owned(),
        chapter: text_or_empty(&c.chapter),
        page: match c.page {
            Some(p) => p as i64,
            None => NULL_PAGE,
        },
        loc_start: offset_in(c.loc_start),
        loc_end: offset_in(c.loc_end),
        text: c.text.clone(),
    }
}

/// A row as a passage to search in.
pub fn chunk_of_row(r: &StoreRow) -> (c: RetrievedChunk)
    ensures
        c@ == retrieved(r@),
{
    RetrievedChunk {
        id: r.id.clone(),
        book_id: r.book_id.clone(),
        title: r.title.clone(),
        author: text_or_none(&r.author),
        source_path: r.source_path.clone(),
        format: Format::from_ext(r.format.as_str()),
        chapter: text_or_none(&r.chapter),
        page: page_out(r.page),
        loc_start: r.loc_start,
        loc_end: r.loc_end,
        text: r.text.clone(),
    }
}

/// A row as a passage to store again. An unknown format counts as PDF.
pub fn import_row(r: &StoreRow) -> (c: Chunk)
    ensures
        c@ == imported(r@),
{
    let format = match Format::from_ext(r.format.as_str()) {
        Some(f) => f,
        None => Format::Pdf,
    };
    Chunk {
        id: r.id.clone(),
        book_id: r.book_id.clone(),
        title: r.title.clone(),
        author: text_or_none(&r.author),
        source_path: r.source_path.clone(),
        format,
        chapter: text_or_none(&r.chapter),
        page: page_out(r.page),
        loc_start: offset_out(r.loc_start),
        loc_end: offset_out(r.loc_end),
        text: r.text.clone(),
    }
}

/// A passage that the store can give back as it was: what is there is not empty, and offsets fit.
pub open spec fn storable(c: ChunkV) -> bool {
    &&& c.author != Some(Seq::<char>::empty())
    &&& c.chapter != Some(Seq::<char>::empty())
    &&& c.loc_start <= i64::MAX
    &&& c.loc_end <= i64::MAX
}

/// A stored passage reads back as it was written, missing authors, chapters and pages included.
pub proof fn stored_passage_reads_back(c: ChunkV)
    requires
        storable(c),
        c.loc_start <= usize::MAX,
        c.loc_end <= usize::MAX,
    ensures
        imported(stored(c)) == c,
        retrieved(stored(c)) == (RetrievedV {
            id: c.id,
            book_id: c.book_id,
            title: c.title,
            author: c.author,
            source_path: c.source_path,
            format: Some(c.format),
            chapter: c.chapter,
            page: c.page,
            loc_start: c.loc_start as i64,
            loc_end: c.loc_end as i64,
            text: c.text,
        }),
{
    formats::format_names_round_trip(c.format);
    match c.author {
        Some(a) => {
            if a.len() == 0 {
                assert(a =~= Seq::<char>::empty());
            }
        },
        None => {},
    }
    match c.chapter {
        Some(a) => {
            if a.len() == 0 {
                assert(a =~= Seq::<char>::empty());
            }
        },
        None => {},
    }
    assert(imported(stored(c)) =~= c);
}

/// Why passages cannot be stored with their vectors, given by their dimensions, if they cannot.
pub open spec fn vector_fault_in(chunks: Seq<(Seq<char>, Option<usize>)>) -> Option<Seq<char>>
    decreases chunks.len(),
{
    if chunks.len() == 0 {
        None
    } else {
        match vector_fault_in(chunks.drop_last()) {
            Some(e) => Some(e),
            None => match chunks.last().1 {
                None => Some("chunk "@ + chunks.last().0 + " has no vector"@),
                Some(n) => if n != VECTOR_DIM {
                    Some("chunk "@ + chunks.last().0 + " vector dim "@ + text::decimal(n as nat))
                } else {
                    None
                },
            },
        }
    }
}

/// The identities and dimensions, by their values.
pub open spec fn dims(v: Seq<(String, Option<usize>)>) -> Seq<(Seq<char>, Option<usize>)> {
    Seq::new(v.len(), |i: int| (v[i].0@, v[i].1))
}

/// Checks that every passage has a vector of the right dimension, and tells the first that has not.
pub fn check_vectors(chunks: &Vec<(String, Option<usize>)>) -> (r: Result<(), StoreError>)
    ensures
        match vector_fault_in(dims(chunks@)) {
            None => r is Ok,
            Some(e) => r is Err && r->Err_0 is Schema && r->Err_0->Schema_0@ == e,
        },
{
    let ghost all = dims(chunks@);
    assert(all.take(0) =~= Seq::empty());
    for i in 0..chunks.len()
        invariant
            all == dims(chunks@),
            vector_fault_in(all.take(i as int)) is None,
    {
        let c = &chunks[i];
        proof {
            assert(all.take(i + 1).drop_last() =~= all.take(i as int));
            assert(all.take(i + 1).last() == (c.0@, c.1));
        }
        let bad = match c.1 {
            None => {
                let mut e = "chunk ".to_owned();
                e.append(c.0.as_str());
                e.append(" has no vector");
                Some(e)
            },
            Some(n) => {
                if n != VECTOR_DIM as usize {
                    let mut e = "chunk ".to_owned();
                    e.append(c.0.as_str());
                    e.append(" vector dim ");
                    e.append(text::decimal_of(n as u64).as_str());
                    Some(e)
                } else {
                    None
                }
            },
        };
        if let Some(e) = bad {
            proof {
                lemma_first_fault(all, i as int + 1);
            }
            return Err(StoreError::Schema(e));
        }
    }
    assert(all.take(all.len() as int) =~= all);
    Ok(())
}

proof fn lemma_first_fault(v: Seq<(Seq<char>, Option<usize>)>, i: int)
    requires
        0 <= i <= v.len(),
        vector_fault_in(v.take(i)) is Some,
    ensures
        vector_fault_in(v) == vector_fault_in(v.take(i)),
    decreases v.len() - i,
{
    if i < v.len() {
        assert(v.take(i + 1).drop_last() =~= v.take(i));
        lemma_first_fault(v, i + 1);
    } else {
        assert(v.take(i) =~= v);
    }
}

/// Passages as rows to store, once their vectors are found to be right.
pub fn chunks_to_batch(chunks: &Vec<Chunk>, vectors: &Vec<Option<usize>>) -> (r: Result<
    Vec<StoreRow>,
    StoreError,
>)
    requires
        vectors@.len() == chunks@.len(),
    ensures
        ({
            let ids = Seq::new(chunks@.len(), |i: int| (chunks@[i]@.id, vectors@[i]));
            match vector_fault_in(ids) {
                None => r is Ok && rows::vals(r->Ok_0@) == Seq::new(
                    chunks@.len(),
                    |i: int| stored(chunks@[i]@),
                ),
                Some(e) => r is Err && r->Err_0 is Schema && r->Err_0->Schema_0@ == e,
            }
        }),
{
    let mut ids: Vec<(String, Option<usize>)> = Vec::new();
    let mut out: Vec<StoreRow> = Vec::new();
    for i in 0..chunks.len()
        invariant
            vectors@.len() == chunks@.len(),
            ids@.len() == i,
            out@.len() == i,
            forall|k: int|
                0 <= k < i ==> (#[trigger] ids@[k]).0@ == chunks@[k]@.id && ids@[k].1 == vectors@[k],
            forall|k: int| 0 <= k < i ==> (#[trigger] out@[k])@ == stored(chunks@[k]@),
    {
        ids.push((chunks[i].id.clone(), vectors[i]));
        out.push(row_of_chunk(&chunks[i]));
    }
    assert(dims(ids@) =~= Seq::new(chunks@.len(), |i: int| (chunks@[i]@.id, vectors@[i])));
    assert(rows::vals(out@) =~= Seq::new(chunks@.len(), |i: int| stored(chunks@[i]@)));
    match check_vectors(&ids) {
        Ok(()) => Ok(out),
        Err(e) => Err(e),
    }
}

/// Rows as passages to store again.
pub fn chunks_with_vectors(batch: &Vec<StoreRow>) -> (r: Vec<Chunk>)
    ensures
        rows::vals(r@) == Seq::new(batch@.len(), |i: int| imported(batch@[i]@)),
{
    let mut out: Vec<Chunk> = Vec::new();
    for i in 0..batch.len()
        invariant
            out@.len() == i,
            forall|k: int| 0 <= k < i ==> (#[trigger] out@[k])@ == imported(batch@[k]@),
    {
        out.push(import_row(&batch[i]));
    }
    assert(rows::vals(out@) =~= Seq::new(batch@.len(), |i: int| imported(batch@[i]@)));
    out
}

/// Rows as passages to search in.
pub fn rows_from_batch(batch: &Vec<StoreRow>) -> (r: Vec<RetrievedChunk>)
    ensures
        rows::vals(r@) == Seq::new(batch@.len(), |i: int| retrieved(batch@[i]@)),
{
    let mut out: Vec<RetrievedChunk> = Vec::new();
    for i in 0..batch.len()
        invariant
            out@.len() == i,
            forall|k: int| 0 <= k < i ==> (#[trigger] out@[k])@ == retrieved(batch@[k]@),
    {
        out.push(chunk_of_row(&batch[i]));
    }
    assert(rows::vals(out@) =~= Seq::new(batch@.len(), |i: int| retrieved(batch@[i]@)));
    out
}

// ---- predicates ------------------------------------------------------------------------------

/// A text as a literal of the store's query language: quotes are doubled.
pub open spec fn quoted(s: Seq<char>) -> Seq<char> {
    "'"@ + doubled(s) + "'"@
}

/// A text with its quotes doubled.
pub open spec fn doubled(s: Seq<char>) -> Seq<char>
    decreases s.len(),
{
    if s.len() == 0 {
        s
    } else if s.last() == '\'' {
        doubled(s.drop_last()).push('\'').push('\'')
    } else {
        doubled(s.drop_last()).push(s.last())
    }
}

/// What a literal with doubled quotes stands for: each pair of quotes is one.
pub open spec fn undoubled(s: Seq<char>) -> Seq<char>
    decreases s.len(),
{
    if s.len() == 0 {
        s
    } else if s.len() > 1 && s.last() == '\'' && s[s.len() - 2] == '\'' {
        undoubled(s.drop_last().drop_last()).push('\'')
    } else {
        undoubled(s.drop_last()).push(s.last())
    }
}

/// A quoted text stands for itself, whatever quotes it holds, and ends where it should: its quotes
/// come in pairs.
pub proof fn quoting_keeps_the_text(s: Seq<char>)
    ensures
        undoubled(doubled(s)) == s,
    decreases s.len(),
{
    if s.len() > 0 {
        let d = doubled(s.drop_last());
        quoting_keeps_the_text(s.drop_last());
        if s.last() == '\'' {
            let q = d.push('\'').push('\'');
            assert(q.drop_last().drop_last() =~= d);
            assert(undoubled(q) =~= undoubled(d).push('\''));
        } else {
            assert(d.push(s.last()).drop_last() =~= d);
        }
        assert(s.drop_last().push(s.last()) =~= s);
    }
}

/// A text as a literal of the store's query language.
pub fn quote(s: &str) -> (r: String)
    ensures
        r@ == quoted(s@),
{
    let v = text::chars_of(s);
    let mut out = String::new();
    assert(out@ =~= doubled(v@.take(0)));
    for i in 0..v.len()
        invariant
            out@ == doubled(v@.take(i as int)),
    {
        assert(v@.take(i + 1).drop_last() =~= v@.take(i as int));
        if v[i] == '\'' {
            out.push('\'');
            out.push('\'');
        } else {
            out.push(v[i]);
        }
    }
    assert(v@.take(v@.len() as int) =~= v@);
    let mut r = "'".to_owned();
    r.append(out.as_str());
    r.append("'");
    r
}

/// The rows of a book.
pub open spec fn of_book_predicate(book: Seq<char>) -> Seq<char> {
    "book_id = "@ + quoted(book)
}

/// The predicate for the rows of a book.
pub fn book_predicate(book_id: &str) -> (r: String)
    ensures
        r@ == of_book_predicate(book_id@),
{
    let mut r = "book_id = ".to_owned();
    r.append(quote(book_id).as_str());
    r
}

/// The tokens that the typo-tolerant search looks for: plain ASCII words.
pub open spec fn ascii_words(p: Seq<Seq<char>>) -> Seq<Seq<char>>
    decreases p.len(),
{
    if p.len() == 0 {
        Seq::empty()
    } else {
        let before = ascii_words(p.drop_last());
        if p.last().len() > 0 && all_ascii(p.last()) {
            before.push(p.last())
        } else {
            before
        }
    }
}

/// Every character is ASCII.
pub open spec fn all_ascii(s: Seq<char>) -> bool {
    forall|i: int| 0 <= i < s.len() ==> (#[trigger] s[i]) as u32 <= 127
}

fn is_ascii_word(v: &[char]) -> (r: bool)
    ensures
        r == all_ascii(v@),
{
    for i in 0..v.len()
        invariant
            forall|k: int| 0 <= k < i ==> (#[trigger] v@[k]) as u32 <= 127,
    {
        if v[i] as u32 > 127 {
            return false;
        }
    }
    true
}

/// The plain ASCII words among some pieces.
pub fn keep_ascii_words(p: &Vec<Vec<char>>) -> (r: Vec<String>)
    ensures
        text::texts(r@) == ascii_words(Seq::new(p@.len(), |i: int| p@[i]@)),
{
    let ghost all = Seq::new(p@.len(), |i: int| p@[i]@);
    let mut out: Vec<String> = Vec::new();
    assert(text::texts(out@) =~= ascii_words(all.take(0)));
    for i in 0..p.len()
        invariant
            all == Seq::new(p@.len(), |i: int| p@[i]@),
            text::texts(out@) == ascii_words(all.take(i as int)),
    {
        assert(all.take(i + 1).drop_last() =~= all.take(i as int));
        assert(all.take(i + 1).last() == p@[i as int]@);
        if p[i].len() > 0 && is_ascii_word(&p[i]) {
            let s = text::string_of(&p[i]);
            proof {
                text::lemma_texts_push(out@, s);
            }
            out.push(s);
        }
    }
    assert(all.take(all.len() as int) =~= all);
    out
}

/// The tokens that the typo-tolerant search looks for.
pub fn fuzzy_tokens(query: &str) -> (r: Vec<String>)
    ensures
        text::texts(r@) == ascii_words(unicode::pieces(query@)),
{
    let v = text::chars_of(query);
    let p = unicode::pieces_of(&v);
    assert(Seq::new(p@.len(), |i: int| p@[i]@) =~= unicode::pieces(query@));
    keep_ascii_words(&p)
}

} // verus!
