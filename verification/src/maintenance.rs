//! Maintenance: reporting and repairing index and manifest debris of a collection. The scan is a
//! pure function of what the store, the manifest and the disk say; repairs are steps that the
//! caller performs on the store and that touch index rows and manifest rows only, never source
//! files.
use vstd::prelude::*;
use crate::formats;
use crate::formats::Format;
use crate::ids;
use crate::manifest;
use crate::manifest::Db;
use crate::order;
use crate::plan;
use crate::rows;
use crate::text;
use crate::types;

verus! {

#[derive(Debug, PartialEq, Eq)]
pub struct OrphanItem {
    pub book_id: String,
    pub path: String,
    /// "store" (chunks exist, file gone) or "manifest" (manifest row only).
    pub kind: String,
}

/// What an [`OrphanItem`] holds.
#[verifier::ext_equal]
pub struct OrphanV {
    pub book: Seq<char>,
    pub path: Seq<char>,
    pub kind: Seq<char>,
}

impl View for OrphanItem {
    type V = OrphanV;

    open spec fn view(&self) -> OrphanV {
        OrphanV { book: self.book_id@, path: self.path@, kind: self.kind@ }
    }
}

#[derive(Debug, PartialEq, Eq)]
pub struct StampItem {
    pub book_id: String,
    pub path: String,
    pub from: String,
    pub to: String,
}

/// What a [`StampItem`] holds.
#[verifier::ext_equal]
pub struct StampV {
    pub book: Seq<char>,
    pub path: Seq<char>,
    pub from: Seq<char>,
    pub to: Seq<char>,
}

impl View for StampItem {
    type V = StampV;

    open spec fn view(&self) -> StampV {
        StampV { book: self.book_id@, path: self.path@, from: self.from@, to: self.to@ }
    }
}

#[derive(Debug, PartialEq, Eq)]
pub struct RemoveItem {
    pub book_id: String,
    pub path: String,
}

/// What a [`RemoveItem`] holds.
#[verifier::ext_equal]
pub struct RemoveV {
    pub book: Seq<char>,
    pub path: Seq<char>,
}

impl View for RemoveItem {
    type V = RemoveV;

    open spec fn view(&self) -> RemoveV {
        RemoveV { book: self.book_id@, path: self.path@ }
    }
}

#[derive(Debug, PartialEq, Eq)]
pub struct DupItem {
    pub keep_path: String,
    pub remove: Vec<RemoveItem>,
}

/// What a [`DupItem`] holds.
#[verifier::ext_equal]
pub struct DupV {
    pub keep_path: Seq<char>,
    pub remove: Seq<RemoveV>,
}

impl View for DupItem {
    type V = DupV;

    open spec fn view(&self) -> DupV {
        DupV { keep_path: self.keep_path@, remove: rows::vals(self.remove@) }
    }
}

#[derive(Debug, PartialEq, Eq)]
pub struct MultiIdItem {
    pub path: String,
    pub keep_id: String,
    pub remove_ids: Vec<String>,
}

/// What a [`MultiIdItem`] holds.
#[verifier::ext_equal]
pub struct MultiV {
    pub path: Seq<char>,
    pub keep_id: Seq<char>,
    pub remove_ids: Seq<Seq<char>>,
}

impl View for MultiIdItem {
    type V = MultiV;

    open spec fn view(&self) -> MultiV {
        MultiV {
            path: self.path@,
            keep_id: self.keep_id@,
            remove_ids: text::texts(self.remove_ids@),
        }
    }
}

#[derive(Debug, PartialEq, Eq)]
pub struct UnreachableRoot {
    pub root: String,
    pub affected: usize,
}

/// What an [`UnreachableRoot`] holds.
#[verifier::ext_equal]
pub struct RootV {
    pub root: Seq<char>,
    pub affected: nat,
}

impl View for UnreachableRoot {
    type V = RootV;

    open spec fn view(&self) -> RootV {
        RootV { root: self.root@, affected: self.affected as nat }
    }
}

#[derive(Debug, PartialEq, Eq)]
pub struct MaintenanceReport {
    pub orphans: Vec<OrphanItem>,
    pub bad_stamps: Vec<StampItem>,
    pub dup_variants: Vec<DupItem>,
    pub multi_id: Vec<MultiIdItem>,
    /// Source roots that are currently unreachable (unmounted drive, offline share): rows under
    /// them are not classified as orphans.
    pub unreachable_roots: Vec<UnreachableRoot>,
}

/// What a [`MaintenanceReport`] holds.
#[verifier::ext_equal]
pub struct ReportV {
    pub orphans: Seq<OrphanV>,
    pub bad_stamps: Seq<StampV>,
    pub dup_variants: Seq<DupV>,
    pub multi_id: Seq<MultiV>,
    pub unreachable_roots: Seq<RootV>,
}

impl View for MaintenanceReport {
    type V = ReportV;

    open spec fn view(&self) -> ReportV {
        ReportV {
            orphans: rows::vals(self.orphans@),
            bad_stamps: rows::vals(self.bad_stamps@),
            dup_variants: rows::vals(self.dup_variants@),
            multi_id: rows::vals(self.multi_id@),
            unreachable_roots: rows::vals(self.unreachable_roots@),
        }
    }
}

#[derive(Debug, Clone, Copy, PartialEq, Eq)]
pub struct FixOutcome {
    pub orphans_removed: usize,
    pub restamped: usize,
    pub dup_rows_removed: usize,
    pub multi_id_removed: usize,
}

/// The format stamp the store holds for a book at a path.
#[derive(Debug)]
pub struct StoredFormat {
    pub book_id: String,
    pub path: String,
    pub format: String,
}

/// What a [`StoredFormat`] holds.
#[verifier::ext_equal]
pub struct StoredFormatV {
    pub book: Seq<char>,
    pub path: Seq<char>,
    pub format: Seq<char>,
}

impl View for StoredFormat {
    type V = StoredFormatV;

    open spec fn view(&self) -> StoredFormatV {
        StoredFormatV { book: self.book_id@, path: self.path@, format: self.format@ }
    }
}

/// A file that is one of several formats of the same book: files with one key are variants of one
/// another, and the smallest rank is the best.
#[derive(Debug, PartialEq, Eq)]
pub struct Variant {
    pub path: String,
    pub key: String,
    pub rank: u8,
}

/// What a [`Variant`] holds.
#[verifier::ext_equal]
pub struct VariantV {
    pub path: Seq<char>,
    pub key: Seq<char>,
    pub rank: u8,
}

impl View for Variant {
    type V = VariantV;

    open spec fn view(&self) -> VariantV {
        VariantV { path: self.path@, key: self.key@, rank: self.rank }
    }
}

/// How good a format is for reading and citing, the best first.
pub open spec fn format_rank(f: Format) -> u8 {
    match f {
        Format::Pdf => 0,
        Format::Epub => 1,
        Format::Mobi => 2,
        Format::Md => 3,
        Format::Txt => 4,
        Format::Html => 5,
        Format::Docx => 6,
        Format::Rtf => 7,
        Format::Odt => 8,
        Format::Doc => 9,
        Format::Fb2 => 10,
        Format::Pages => 11,
        Format::Webarchive => 12,
        Format::Djvu => 13,
        Format::Xps => 14,
    }
}

/// How good a format is, the best first.
pub fn rank_of_format(f: Format) -> (r: u8)
    ensures
        r == format_rank(f),
{
    match f {
        Format::Pdf => 0,
        Format::Epub => 1,
        Format::Mobi => 2,
        Format::Md => 3,
        Format::Txt => 4,
        Format::Html => 5,
        Format::Docx => 6,
        Format::Rtf => 7,
        Format::Odt => 8,
        Format::Doc => 9,
        Format::Fb2 => 10,
        Format::Pages => 11,
        Format::Webarchive => 12,
        Format::Djvu => 13,
        Format::Xps => 14,
    }
}

/// A file as one of several formats of a book: those whose paths differ in the extension only. A
/// file of no known format is none.
pub open spec fn file_variant(path: Seq<char>) -> Option<VariantV> {
    match (formats::ext_name(path), formats::format_of(path)) {
        (Some(e), Some(f)) if path.len() > e.len() => Some(
            VariantV { path, key: path.take(path.len() - e.len() - 1), rank: format_rank(f) },
        ),
        _ => None,
    }
}

/// A file as one of several formats of a book.
pub fn variant_of(path: &str) -> (r: Option<Variant>)
    ensures
        match file_variant(path@) {
            Some(v) => r is Some && r->0@ == v,
            None => r is None,
        },
{
    let v = text::chars_of(path);
    let count: usize = v.len();
    match (formats::ext_of(path), Format::from_path(path)) {
        (Some(e), Some(f)) => {
            let n: usize = e.unicode_len();
            if count <= n {
                return None;
            }
            let stem = vstd::slice::slice_subrange(v.as_slice(), 0, count - n - 1);
            assert(stem@ =~= path@.take(path@.len() - e@.len() - 1));
            Some(
                Variant { path: path.to_owned(), key: text::string_of(stem), rank: rank_of_format(f) },
            )
        },
        _ => None,
    }
}

/// What the store and the disk say about a collection.
#[derive(Debug)]
pub struct Evidence {
    /// Every `(book id, source path)` the store holds.
    pub pairs: Vec<(String, String)>,
    /// The book ids present in the store.
    pub ids: Vec<String>,
    pub formats: Vec<StoredFormat>,
    /// The paths at which a file exists.
    pub present: Vec<String>,
    /// The source roots that cannot be examined.
    pub unreachable: Vec<String>,
    pub variants: Vec<Variant>,
}

/// What [`Evidence`] holds.
#[verifier::ext_equal]
pub struct EvidenceV {
    pub pairs: Seq<(Seq<char>, Seq<char>)>,
    pub ids: Seq<Seq<char>>,
    pub formats: Seq<StoredFormatV>,
    pub present: Seq<Seq<char>>,
    pub unreachable: Seq<Seq<char>>,
    pub variants: Seq<VariantV>,
}

impl View for Evidence {
    type V = EvidenceV;

    open spec fn view(&self) -> EvidenceV {
        EvidenceV {
            pairs: rows::vals(self.pairs@),
            ids: text::texts(self.ids@),
            formats: rows::vals(self.formats@),
            present: text::texts(self.present@),
            unreachable: text::texts(self.unreachable@),
            variants: rows::vals(self.variants@),
        }
    }
}

/// The second components of some pairs.
pub open spec fn seconds(pairs: Seq<(Seq<char>, Seq<char>)>) -> Seq<Seq<char>> {
    Seq::new(pairs.len(), |i: int| pairs[i].1)
}

/// The first components of some pairs.
pub open spec fn heads(pairs: Seq<(Seq<char>, Seq<char>)>) -> Seq<Seq<char>> {
    Seq::new(pairs.len(), |i: int| pairs[i].0)
}

/// The paths the store holds, sorted.
pub open spec fn paths_of(pairs: Seq<(Seq<char>, Seq<char>)>) -> Seq<Seq<char>> {
    order::sorted_set(seconds(pairs))
}

/// The ids under which the store holds a path.
pub open spec fn ids_at(pairs: Seq<(Seq<char>, Seq<char>)>, path: Seq<char>) -> Seq<Seq<char>> {
    order::firsts(heads(rows::keep(pairs, plan::at_path(path))))
}

impl EvidenceV {
    pub open spec fn exists_at(self, path: Seq<char>) -> bool {
        self.present.contains(path)
    }

    /// Rows under an unreachable root cannot be judged.
    pub open spec fn unjudgeable(self, path: Seq<char>) -> bool {
        manifest::under_roots(path, self.unreachable)
    }

    /// The file is gone, and that can be trusted.
    pub open spec fn gone(self, path: Seq<char>) -> bool {
        !self.exists_at(path) && !self.unjudgeable(path)
    }

    pub open spec fn paths(self) -> Seq<Seq<char>> {
        paths_of(self.pairs)
    }

    pub open spec fn ids_at(self, path: Seq<char>) -> Seq<Seq<char>> {
        ids_at(self.pairs, path)
    }

    /// Chunks whose file is gone, among the given paths.
    pub open spec fn store_orphans(self, paths: Seq<Seq<char>>) -> Seq<OrphanV>
        decreases paths.len(),
    {
        if paths.len() == 0 {
            Seq::empty()
        } else {
            let path = paths.last();
            let before = self.store_orphans(paths.drop_last());
            if self.gone(path) {
                before + self.ids_at(path).map_values(
                    |id: Seq<char>| OrphanV { book: id, path, kind: "store"@ },
                )
            } else {
                before
            }
        }
    }

    /// A manifest row without store presence whose path is unknown or gone.
    pub open spec fn orphan_row(self, row: (Seq<char>, Seq<char>)) -> bool {
        !self.ids.contains(row.0) && (row.1.len() == 0 || self.gone(row.1))
    }

    /// The orphans among some manifest rows.
    pub open spec fn manifest_orphans(self, state: Seq<(Seq<char>, Seq<char>)>) -> Seq<OrphanV> {
        rows::keep(state, |r: (Seq<char>, Seq<char>)| self.orphan_row(r)).map_values(
            |r: (Seq<char>, Seq<char>)| OrphanV { book: r.0, path: r.1, kind: "manifest"@ },
        )
    }
}

/// A stamp does not name the family that the file's extension says.
pub open spec fn stamp_is_bad(f: StoredFormatV) -> bool {
    formats::format_of(f.path) is Some && formats::family(text::lower_ascii_all(f.format))
        != formats::format_of(f.path)
}

/// The stamps to repair.
pub open spec fn bad_stamps(all: Seq<StoredFormatV>) -> Seq<StampV> {
    rows::keep(all, |f: StoredFormatV| stamp_is_bad(f)).map_values(
        |f: StoredFormatV|
            StampV {
                book: f.book,
                path: f.path,
                from: f.format,
                to: formats::format_of(f.path)->0.name(),
            },
    )
}

fn indexed_paths(pairs: &Vec<(String, String)>) -> (r: Vec<String>)
    ensures
        text::texts(r@) == paths_of(rows::vals(pairs@)),
{
    let ghost all = seconds(rows::vals(pairs@));
    let mut out: Vec<String> = Vec::new();
    assert(text::texts(out@) =~= Seq::empty());
    for i in 0..pairs.len()
        invariant
            all == seconds(rows::vals(pairs@)),
            text::texts(out@) == order::sorted_set(all.take(i as int)),
    {
        proof {
            assert(all[i as int] == pairs@[i as int].1@);
            assert(all.take(i as int + 1).drop_last() =~= all.take(i as int));
        }
        order::insert_sorted(&mut out, pairs[i].1.as_str());
    }
    assert(all.take(all.len() as int) =~= all);
    out
}

pub fn ids_of_path(pairs: &Vec<(String, String)>, path: &str) -> (r: Vec<String>)
    ensures
        text::texts(r@) == ids_at(rows::vals(pairs@), path@),
{
    let ghost all = rows::vals(pairs@);
    let ghost p = plan::at_path(path@);
    let mut out: Vec<String> = Vec::new();
    assert(text::texts(out@) =~= order::firsts(heads(rows::keep(all.take(0), p))));
    for i in 0..pairs.len()
        invariant
            all == rows::vals(pairs@),
            p == plan::at_path(path@),
            text::texts(out@) == order::firsts(heads(rows::keep(all.take(i as int), p))),
    {
        proof {
            let s = all.take(i as int);
            assert(all.take(i as int + 1) =~= s.push(all[i as int]));
            rows::lemma_keep_push(s, p, all[i as int]);
            let k = rows::keep(s, p);
            assert(heads(k.push(all[i as int])).drop_last() =~= heads(k));
            assert(heads(k.push(all[i as int])).last() == all[i as int].0);
        }
        if text::same_text(pairs[i].1.as_str(), path) && !order::holds(&out, pairs[i].0.as_str()) {
            let s = pairs[i].0.clone();
            proof {
                text::lemma_texts_push(out@, s);
            }
            out.push(s);
        }
    }
    assert(all.take(all.len() as int) =~= all);
    out
}

impl Evidence {
    fn is_gone(&self, path: &str) -> (r: bool)
        ensures
            r == self@.gone(path@),
    {
        !order::holds(&self.present, path) && !manifest::path_under_roots(path, &self.unreachable)
    }

    /// Chunks whose file is gone.
    pub fn find_store_orphans(&self, paths: &Vec<String>) -> (r: Vec<OrphanItem>)
        ensures
            rows::vals(r@) == self@.store_orphans(text::texts(paths@)),
    {
        let ghost all = text::texts(paths@);
        let ghost ev = self@;
        let mut out: Vec<OrphanItem> = Vec::new();
        assert(rows::vals(out@) =~= Seq::empty());
        for i in 0..paths.len()
            invariant
                all == text::texts(paths@),
                ev == self@,
                rows::vals(out@) == ev.store_orphans(all.take(i as int)),
        {
            let path = paths[i].as_str();
            proof {
                assert(all[i as int] == path@);
                assert(all.take(i as int + 1).drop_last() =~= all.take(i as int));
                assert(all.take(i as int + 1).last() == path@);
            }
            if self.is_gone(path) {
                let found = ids_of_path(&self.pairs, path);
                let ghost ids = text::texts(found@);
                let ghost f = |id: Seq<char>| OrphanV { book: id, path: path@, kind: "store"@ };
                let ghost before = rows::vals(out@);
                assert(before + ids.take(0).map_values(f) =~= before);
                for j in 0..found.len()
                    invariant
                        ids == text::texts(found@),
                        f == (|id: Seq<char>| OrphanV { book: id, path: path@, kind: "store"@ }),
                        rows::vals(out@) == before + ids.take(j as int).map_values(f),
                {
                    let o = OrphanItem {
                        book_id: found[j].clone(),
                        path: path.to_owned(),
                        kind: "store".to_owned(),
                    };
                    proof {
                        rows::lemma_vals_push(out@, o);
                        assert(ids.take(j as int + 1).map_values(f) =~= ids.take(
                            j as int,
                        ).map_values(f).push(o@));
                        assert((before + ids.take(j as int).map_values(f)).push(o@) =~= before
                            + ids.take(j as int + 1).map_values(f));
                    }
                    out.push(o);
                }
                assert(ids.take(ids.len() as int) =~= ids);
            }
        }
        assert(all.take(all.len() as int) =~= all);
        out
    }

    /// Manifest rows without store presence whose path is unknown or gone. Rows whose file still
    /// exists are left alone: removing them would embed the file again.
    pub fn find_manifest_orphans(&self, state: &Vec<(String, String)>) -> (r: Vec<OrphanItem>)
        ensures
            rows::vals(r@) == self@.manifest_orphans(rows::vals(state@)),
    {
        let ghost all = rows::vals(state@);
        let ghost ev = self@;
        let ghost p = |r: (Seq<char>, Seq<char>)| ev.orphan_row(r);
        let ghost f = |r: (Seq<char>, Seq<char>)|
            OrphanV { book: r.0, path: r.1, kind: "manifest"@ };
        let mut out: Vec<OrphanItem> = Vec::new();
        assert(rows::vals(out@) =~= rows::keep(all.take(0), p).map_values(f));
        for i in 0..state.len()
            invariant
                all == rows::vals(state@),
                ev == self@,
                p == (|r: (Seq<char>, Seq<char>)| ev.orphan_row(r)),
                f == (|r: (Seq<char>, Seq<char>)|
                    OrphanV { book: r.0, path: r.1, kind: "manifest"@ }),
                rows::vals(out@) == rows::keep(all.take(i as int), p).map_values(f),
        {
            let ghost row = all[i as int];
            proof {
                assert(row == state@[i as int]@);
                let s = all.take(i as int);
                assert(all.take(i as int + 1) =~= s.push(row));
                rows::lemma_keep_push(s, p, row);
                assert(rows::keep(s, p).push(row).map_values(f) =~= rows::keep(s, p).map_values(
                    f,
                ).push(f(row)));
            }
            if !order::holds(&self.ids, state[i].0.as_str()) && (state[i].1.as_str().is_empty()
                || self.is_gone(state[i].1.as_str())) {
                let o = OrphanItem {
                    book_id: state[i].0.clone(),
                    path: state[i].1.clone(),
                    kind: "manifest".to_owned(),
                };
                proof {
                    rows::lemma_vals_push(out@, o);
                }
                out.push(o);
            }
        }
        assert(all.take(all.len() as int) =~= all);
        out
    }

    /// Stamps that do not name the family of the file's extension. Alias stamps are left alone;
    /// unparseable stamps are flagged.
    pub fn find_bad_stamps(&self) -> (r: Vec<StampItem>)
        ensures
            rows::vals(r@) == bad_stamps(self@.formats),
    {
        let ghost all = self@.formats;
        let ghost p = |f: StoredFormatV| stamp_is_bad(f);
        let ghost g = |f: StoredFormatV|
            StampV {
                book: f.book,
                path: f.path,
                from: f.format,
                to: formats::format_of(f.path)->0.name(),
            };
        let mut out: Vec<StampItem> = Vec::new();
        assert(rows::vals(out@) =~= rows::keep(all.take(0), p).map_values(g));
        for i in 0..self.formats.len()
            invariant
                all == self@.formats,
                p == (|f: StoredFormatV| stamp_is_bad(f)),
                g == (|f: StoredFormatV|
                    StampV {
                        book: f.book,
                        path: f.path,
                        from: f.format,
                        to: formats::format_of(f.path)->0.name(),
                    }),
                rows::vals(out@) == rows::keep(all.take(i as int), p).map_values(g),
        {
            let ghost row = all[i as int];
            proof {
                assert(row == self.formats@[i as int]@);
                let s = all.take(i as int);
                assert(all.take(i as int + 1) =~= s.push(row));
                rows::lemma_keep_push(s, p, row);
                assert(rows::keep(s, p).push(row).map_values(g) =~= rows::keep(s, p).map_values(
                    g,
                ).push(g(row)));
            }
            let f = &self.formats[i];
            if let Some(expected) = Format::from_path(f.path.as_str()) {
                let matches_family = match Format::from_ext(f.format.as_str()) {
                    Some(got) => got == expected,
                    None => false,
                };
                if !matches_family {
                    let s = StampItem {
                        book_id: f.book_id.clone(),
                        path: f.path.clone(),
                        from: f.format.clone(),
                        to: expected.as_str().to_owned(),
                    };
                    proof {
                        rows::lemma_vals_push(out@, s);
                    }
                    out.push(s);
                }
            }
        }
        assert(all.take(all.len() as int) =~= all);
        out
    }
}

/// The texts that differ from a given one.
pub open spec fn other_than(x: Seq<char>) -> spec_fn(Seq<char>) -> bool {
    |y: Seq<char>| y != x
}

/// The variant entry of a path.
pub open spec fn variant_at(path: Seq<char>) -> spec_fn(VariantV) -> bool {
    |v: VariantV| v.path == path
}

/// The entries of one book.
pub open spec fn with_key(key: Seq<char>) -> spec_fn(VariantV) -> bool {
    |v: VariantV| v.key == key
}

/// A list sorted by rank with one more entry, after those of the same rank.
pub open spec fn rank_insert(s: Seq<VariantV>, x: VariantV) -> Seq<VariantV>
    decreases s.len(),
{
    if s.len() > 0 && s.last().rank > x.rank {
        rank_insert(s.drop_last(), x).push(s.last())
    } else {
        s.push(x)
    }
}

/// Entries sorted by rank; those of one rank stay in order.
pub open spec fn by_rank(s: Seq<VariantV>) -> Seq<VariantV>
    decreases s.len(),
{
    if s.len() == 0 {
        s
    } else {
        rank_insert(by_rank(s.drop_last()), s.last())
    }
}

/// The keys of some entries, sorted.
pub open spec fn keys_of(s: Seq<VariantV>) -> Seq<Seq<char>> {
    order::sorted_set(Seq::new(s.len(), |i: int| s[i].key))
}

impl EvidenceV {
    /// The entries of those among the given paths that exist, can be judged and have variants.
    pub open spec fn eligible(self, paths: Seq<Seq<char>>) -> Seq<VariantV>
        decreases paths.len(),
    {
        if paths.len() == 0 {
            Seq::empty()
        } else {
            let path = paths.last();
            let before = self.eligible(paths.drop_last());
            match rows::find_row(self.variants, variant_at(path)) {
                Some(v) => if self.exists_at(path) && !self.unjudgeable(path) {
                    before.push(v)
                } else {
                    before
                },
                None => before,
            }
        }
    }

    /// The rows to remove for the given entries: every id under which a path is held.
    pub open spec fn removals(self, losers: Seq<VariantV>) -> Seq<RemoveV>
        decreases losers.len(),
    {
        if losers.len() == 0 {
            Seq::empty()
        } else {
            let path = losers.last().path;
            self.removals(losers.drop_last()) + self.ids_at(path).map_values(
                |id: Seq<char>| RemoveV { book: id, path },
            )
        }
    }

    /// Of each book that several files hold, the best-ranked is kept and the others are removed.
    pub open spec fn duplicates(self, all: Seq<VariantV>, keys: Seq<Seq<char>>) -> Seq<DupV>
        decreases keys.len(),
    {
        if keys.len() == 0 {
            Seq::empty()
        } else {
            let before = self.duplicates(all, keys.drop_last());
            let m = by_rank(rows::keep(all, with_key(keys.last())));
            if m.len() < 2 {
                before
            } else {
                before.push(DupV { keep_path: m[0].path, remove: self.removals(m.skip(1)) })
            }
        }
    }

    pub open spec fn dup_variants(self) -> Seq<DupV> {
        let all = self.eligible(self.paths());
        self.duplicates(all, keys_of(all))
    }

    /// The id to keep of a path held under several: the manifest's, else the path-derived one, else
    /// the smallest.
    pub open spec fn keeper(
        self,
        state: Seq<manifest::StateV>,
        coll: Seq<char>,
        path: Seq<char>,
    ) -> Seq<char> {
        let ids = self.ids_at(path);
        let known = rows::find_row(state, manifest_row_at(coll, path));
        if known is Some && ids.contains(known->0.book) {
            known->0.book
        } else if ids.contains(ids::book_id_of(path)) {
            ids::book_id_of(path)
        } else {
            order::sorted_set(ids)[0]
        }
    }

    /// The files among the given paths that exist and are held under several ids.
    pub open spec fn multi_ids(
        self,
        state: Seq<manifest::StateV>,
        coll: Seq<char>,
        paths: Seq<Seq<char>>,
    ) -> Seq<MultiV>
        decreases paths.len(),
    {
        if paths.len() == 0 {
            Seq::empty()
        } else {
            let path = paths.last();
            let before = self.multi_ids(state, coll, paths.drop_last());
            let ids = self.ids_at(path);
            if ids.len() < 2 || !self.exists_at(path) {
                before
            } else {
                let keep_id = self.keeper(state, coll, path);
                before.push(
                    MultiV {
                        path,
                        keep_id,
                        remove_ids: rows::keep(ids, other_than(keep_id)),
                    },
                )
            }
        }
    }

    /// For every missing path under unreachable roots, those roots.
    pub open spec fn root_hits(self, paths: Seq<Seq<char>>) -> Seq<Seq<char>>
        decreases paths.len(),
    {
        if paths.len() == 0 {
            Seq::empty()
        } else {
            let path = paths.last();
            let before = self.root_hits(paths.drop_last());
            if !self.exists_at(path) && self.unjudgeable(path) {
                before + rows::keep(
                    self.unreachable,
                    |r: Seq<char>| manifest::under_root(path, r),
                )
            } else {
                before
            }
        }
    }

    /// The unreachable roots: those with missing files first, sorted, then the others.
    pub open spec fn roots_report(self) -> Seq<RootV> {
        let hits = self.root_hits(self.paths());
        plus_unhit(
            order::sorted_set(hits).map_values(
                |r: Seq<char>|
                    RootV { root: r, affected: rows::keep(hits, |x: Seq<char>| x == r).len() },
            ),
            self.unreachable,
        )
    }

    /// The whole report.
    pub open spec fn report(self, state: Seq<manifest::StateV>, coll: Seq<char>) -> ReportV {
        ReportV {
            orphans: self.store_orphans(self.paths()) + self.manifest_orphans(
                manifest_pairs(state, coll),
            ),
            bad_stamps: bad_stamps(self.formats),
            dup_variants: self.dup_variants(),
            multi_id: self.multi_ids(state, coll, self.paths()),
            unreachable_roots: self.roots_report(),
        }
    }
}

/// The `(book, path)` of every manifest row of a collection.
pub open spec fn manifest_pairs(
    state: Seq<manifest::StateV>,
    coll: Seq<char>,
) -> Seq<(Seq<char>, Seq<char>)> {
    rows::keep(state, manifest::of_collection(coll)).map_values(
        |x: manifest::StateV| (x.book, x.source_path),
    )
}

/// The manifest rows of a collection under a path.
pub open spec fn manifest_row_at(
    coll: Seq<char>,
    path: Seq<char>,
) -> spec_fn(manifest::StateV) -> bool {
    |x: manifest::StateV| x.collection == coll && x.source_path == path
}

/// The roots with those added, as unaffected, that are not among them.
pub open spec fn plus_unhit(s: Seq<RootV>, roots: Seq<Seq<char>>) -> Seq<RootV>
    decreases roots.len(),
{
    if roots.len() == 0 {
        s
    } else {
        let t = plus_unhit(s, roots.drop_last());
        let r = roots.last();
        if exists|i: int| 0 <= i < t.len() && (#[trigger] t[i]).root == r {
            t
        } else {
            t.push(RootV { root: r, affected: 0 })
        }
    }
}

fn insert_by_rank(v: &mut Vec<Variant>, x: Variant)
    ensures
        rows::vals(final(v)@) == rank_insert(rows::vals(old(v)@), x@),
{
    let ghost s = rows::vals(v@);
    let mut i: usize = v.len();
    assert(s.take(i as int) =~= s);
    assert(rank_insert(s.take(i as int), x@) + s.skip(i as int) =~= rank_insert(s, x@));
    while i > 0 && v[i - 1].rank > x.rank
        invariant
            i <= v@.len(),
            v@ == old(v)@,
            s == rows::vals(v@),
            rank_insert(s.take(i as int), x@) + s.skip(i as int) == rank_insert(s, x@),
        decreases i,
    {
        proof {
            let t = s.take(i as int);
            assert(t.last() == v@[i - 1]@);
            assert(t.drop_last() =~= s.take(i - 1));
            assert(rank_insert(s.take(i - 1), x@).push(t.last()) + s.skip(i as int)
                =~= rank_insert(s.take(i - 1), x@) + s.skip(i - 1));
        }
        i = i - 1;
    }
    proof {
        if i > 0 {
            assert(s.take(i as int).last() == v@[i - 1]@);
        }
    }
    v.insert(i, x);
    assert(rows::vals(v@) =~= s.take(i as int).push(x@) + s.skip(i as int));
}

fn copy_variant(v: &Variant) -> (r: Variant)
    ensures
        r@ == v@,
{
    Variant { path: v.path.clone(), key: v.key.clone(), rank: v.rank }
}

impl Evidence {
    fn find_eligible(&self, paths: &Vec<String>) -> (r: Vec<Variant>)
        ensures
            rows::vals(r@) == self@.eligible(text::texts(paths@)),
    {
        let ghost all = text::texts(paths@);
        let ghost ev = self@;
        let mut out: Vec<Variant> = Vec::new();
        assert(rows::vals(out@) =~= Seq::empty());
        for i in 0..paths.len()
            invariant
                all == text::texts(paths@),
                ev == self@,
                rows::vals(out@) == ev.eligible(all.take(i as int)),
        {
            let path = paths[i].as_str();
            proof {
                assert(all[i as int] == path@);
                assert(all.take(i as int + 1).drop_last() =~= all.take(i as int));
                assert(all.take(i as int + 1).last() == path@);
            }
            let ghost p = variant_at(path@);
            let found = rows::find_where(
                &self.variants,
                |t: &Variant| -> (b: bool)
                    ensures
                        b == p(t@)
                    { text::same_text(t.path.as_str(), path) },
                Ghost(p),
            );
            if let Some(k) = found {
                if order::holds(&self.present, path) && !manifest::path_under_roots(
                    path,
                    &self.unreachable,
                ) {
                    let v = copy_variant(&self.variants[k]);
                    proof {
                        rows::lemma_vals_push(out@, v);
                    }
                    out.push(v);
                }
            }
        }
        assert(all.take(all.len() as int) =~= all);
        out
    }

    fn find_removals(&self, members: &Vec<Variant>) -> (r: Vec<RemoveItem>)
        requires
            members@.len() > 0,
        ensures
            rows::vals(r@) == self@.removals(rows::vals(members@).skip(1)),
    {
        let ghost all = rows::vals(members@).skip(1);
        let ghost ev = self@;
        let mut out: Vec<RemoveItem> = Vec::new();
        assert(rows::vals(out@) =~= Seq::empty());
        for i in 1..members.len()
            invariant
                all == rows::vals(members@).skip(1),
                ev == self@,
                rows::vals(out@) == ev.removals(all.take(i - 1)),
        {
            let path = members[i].path.as_str();
            let found = ids_of_path(&self.pairs, path);
            let ghost ids = text::texts(found@);
            let ghost f = |id: Seq<char>| RemoveV { book: id, path: path@ };
            let ghost before = rows::vals(out@);
            proof {
                assert(all[i - 1] == members@[i as int]@);
                assert(all.take(i as int).drop_last() =~= all.take(i - 1));
                assert(all.take(i as int).last().path == path@);
                assert(before + ids.take(0).map_values(f) =~= before);
            }
            for j in 0..found.len()
                invariant
                    ids == text::texts(found@),
                    f == (|id: Seq<char>| RemoveV { book: id, path: path@ }),
                    rows::vals(out@) == before + ids.take(j as int).map_values(f),
            {
                let o = RemoveItem { book_id: found[j].clone(), path: path.to_owned() };
                proof {
                    rows::lemma_vals_push(out@, o);
                    assert(ids.take(j as int + 1).map_values(f) =~= ids.take(j as int).map_values(
                        f,
                    ).push(o@));
                    assert((before + ids.take(j as int).map_values(f)).push(o@) =~= before
                        + ids.take(j as int + 1).map_values(f));
                }
                out.push(o);
            }
            assert(ids.take(ids.len() as int) =~= ids);
        }
        assert(all.take(all.len() as int) =~= all);
        out
    }

    /// Books held by several files: the best-ranked file that exists is kept.
    pub fn find_dup_variants(&self, paths: &Vec<String>) -> (r: Vec<DupItem>)
        requires
            text::texts(paths@) == self@.paths(),
        ensures
            rows::vals(r@) == self@.dup_variants(),
    {
        let ghost ev = self@;
        let all = self.find_eligible(paths);
        let ghost entries = rows::vals(all@);
        let ghost key_list = Seq::new(entries.len(), |i: int| entries[i].key);
        let mut keys: Vec<String> = Vec::new();
        assert(text::texts(keys@) =~= order::sorted_set(key_list.take(0)));
        for i in 0..all.len()
            invariant
                entries == rows::vals(all@),
                key_list == Seq::new(entries.len(), |i: int| entries[i].key),
                text::texts(keys@) == order::sorted_set(key_list.take(i as int)),
        {
            proof {
                assert(key_list[i as int] == all@[i as int]@.key);
                assert(key_list.take(i as int + 1).drop_last() =~= key_list.take(i as int));
            }
            order::insert_sorted(&mut keys, all[i].key.as_str());
        }
        assert(key_list.take(key_list.len() as int) =~= key_list);
        let ghost ks = text::texts(keys@);
        let mut out: Vec<DupItem> = Vec::new();
        assert(rows::vals(out@) =~= Seq::empty());
        for k in 0..keys.len()
            invariant
                ev == self@,
                entries == rows::vals(all@),
                ks == text::texts(keys@),
                rows::vals(out@) == ev.duplicates(entries, ks.take(k as int)),
        {
            let key = keys[k].as_str();
            let ghost p = with_key(key@);
            let mut members: Vec<Variant> = Vec::new();
            proof {
                assert(ks[k as int] == key@);
                assert(ks.take(k as int + 1).drop_last() =~= ks.take(k as int));
                assert(ks.take(k as int + 1).last() == key@);
                assert(rows::vals(members@) =~= by_rank(rows::keep(entries.take(0), p)));
            }
            for i in 0..all.len()
                invariant
                    entries == rows::vals(all@),
                    p == with_key(key@),
                    rows::vals(members@) == by_rank(rows::keep(entries.take(i as int), p)),
            {
                proof {
                    let s = entries.take(i as int);
                    assert(entries.take(i as int + 1) =~= s.push(entries[i as int]));
                    rows::lemma_keep_push(s, p, entries[i as int]);
                    assert(entries[i as int] == all@[i as int]@);
                    assert(rows::keep(s, p).push(entries[i as int]).drop_last() =~= rows::keep(
                        s,
                        p,
                    ));
                }
                if text::same_text(all[i].key.as_str(), key) {
                    insert_by_rank(&mut members, copy_variant(&all[i]));
                }
            }
            assert(entries.take(entries.len() as int) =~= entries);
            if members.len() >= 2 {
                let d = DupItem {
                    keep_path: members[0].path.clone(),
                    remove: self.find_removals(&members),
                };
                proof {
                    rows::lemma_vals_push(out@, d);
                }
                out.push(d);
            }
        }
        assert(ks.take(ks.len() as int) =~= ks);
        out
    }

    /// Files that exist and are indexed under several ids.
    pub fn find_multi_ids(&self, db: &Db, collection_id: &str, paths: &Vec<String>) -> (r: Vec<
        MultiIdItem,
    >)
        ensures
            rows::vals(r@) == self@.multi_ids(db@.state, collection_id@, text::texts(paths@)),
    {
        let ghost all = text::texts(paths@);
        let ghost ev = self@;
        let mut out: Vec<MultiIdItem> = Vec::new();
        assert(rows::vals(out@) =~= Seq::empty());
        for i in 0..paths.len()
            invariant
                all == text::texts(paths@),
                ev == self@,
                rows::vals(out@) == ev.multi_ids(
                    db@.state,
                    collection_id@,
                    all.take(i as int),
                ),
        {
            let path = paths[i].as_str();
            proof {
                assert(all[i as int] == path@);
                assert(all.take(i as int + 1).drop_last() =~= all.take(i as int));
                assert(all.take(i as int + 1).last() == path@);
            }
            let mut found = ids_of_path(&self.pairs, path);
            if found.len() >= 2 && order::holds(&self.present, path) {
                let keep_id = self.pick_keeper(db, collection_id, path, &found);
                let ghost p = |id: Seq<char>| id == keep_id@;
                let ghost ids = text::texts(found@);
                assert(rows::vals(found@) =~= ids);
                rows::drop_where(
                    &mut found,
                    |t: &String| -> (b: bool)
                        ensures
                            b == p(t@)
                        { text::same_text(t.as_str(), keep_id.as_str()) },
                    Ghost(p),
                );
                assert(rows::vals(found@) =~= text::texts(found@));
                let m = MultiIdItem { path: path.to_owned(), keep_id, remove_ids: found };
                proof {
                    rows::lemma_keep_same(
                        ids,
                        |x: Seq<char>| !p(x),
                        other_than(keep_id@),
                    );
                    rows::lemma_vals_push(out@, m);
                    assert(m@ =~= MultiV {
                        path: path@,
                        keep_id: keep_id@,
                        remove_ids: rows::keep(ids, other_than(keep_id@)),
                    });
                }
                out.push(m);
            }
        }
        assert(all.take(all.len() as int) =~= all);
        out
    }

    fn pick_keeper(&self, db: &Db, collection_id: &str, path: &str, found: &Vec<String>) -> (r:
        String)
        requires
            text::texts(found@) == self@.ids_at(path@),
            found@.len() >= 2,
        ensures
            r@ == self@.keeper(db@.state, collection_id@, path@),
    {
        let ghost p = manifest_row_at(collection_id@, path@);
        let known = rows::find_where(
            &db.state,
            |t: &manifest::StateRow| -> (b: bool)
                ensures
                    b == p(t@)
                {
                    text::same_text(t.collection_id.as_str(), collection_id) && text::same_text(
                        t.source_path.as_str(),
                        path,
                    )
                },
            Ghost(p),
        );
        if let Some(k) = known {
            let id = &db.state[k].book_id;
            if order::holds(found, id.as_str()) {
                return id.clone();
            }
        }
        let stable = ids::stable_book_id(path);
        if order::holds(found, stable.as_str()) {
            return stable;
        }
        let ghost all = text::texts(found@);
        let mut sorted: Vec<String> = Vec::new();
        assert(text::texts(sorted@) =~= order::sorted_set(all.take(0)));
        for i in 0..found.len()
            invariant
                all == text::texts(found@),
                text::texts(sorted@) == order::sorted_set(all.take(i as int)),
        {
            proof {
                assert(all[i as int] == found@[i as int]@);
                assert(all.take(i as int + 1).drop_last() =~= all.take(i as int));
            }
            order::insert_sorted(&mut sorted, found[i].as_str());
        }
        proof {
            assert(all.take(all.len() as int) =~= all);
            order::lemma_sorted_set(all);
            assert(all.contains(all[0]));
            assert(order::sorted_set(all).contains(all[0]));
            assert(text::texts(sorted@).len() == sorted@.len());
        }
        sorted[0].clone()
    }

    /// The unreachable roots and how many missing files lie under each.
    pub fn find_unreachable_roots(&self, paths: &Vec<String>) -> (r: Vec<UnreachableRoot>)
        requires
            text::texts(paths@) == self@.paths(),
        ensures
            rows::vals(r@) == self@.roots_report(),
    {
        let ghost ev = self@;
        let ghost all = text::texts(paths@);
        let mut hits: Vec<String> = Vec::new();
        assert(text::texts(hits@) =~= Seq::empty());
        for i in 0..paths.len()
            invariant
                ev == self@,
                all == text::texts(paths@),
                text::texts(hits@) == ev.root_hits(all.take(i as int)),
        {
            let path = paths[i].as_str();
            proof {
                assert(all[i as int] == path@);
                assert(all.take(i as int + 1).drop_last() =~= all.take(i as int));
                assert(all.take(i as int + 1).last() == path@);
            }
            if !order::holds(&self.present, path) && manifest::path_under_roots(
                path,
                &self.unreachable,
            ) {
                let ghost p = |r: Seq<char>| manifest::under_root(path@, r);
                let ghost before = text::texts(hits@);
                let ghost un = ev.unreachable;
                assert(before + rows::keep(un.take(0), p) =~= before);
                for j in 0..self.unreachable.len()
                    invariant
                        un == text::texts(self.unreachable@),
                        p == (|r: Seq<char>| manifest::under_root(path@, r)),
                        text::texts(hits@) == before + rows::keep(un.take(j as int), p),
                {
                    proof {
                        let s = un.take(j as int);
                        assert(un[j as int] == self.unreachable@[j as int]@);
                        assert(un.take(j as int + 1) =~= s.push(un[j as int]));
                        rows::lemma_keep_push(s, p, un[j as int]);
                        assert((before + rows::keep(s, p)).push(un[j as int]) =~= before
                            + rows::keep(s, p).push(un[j as int]));
                    }
                    if manifest::path_under_root(path, self.unreachable[j].as_str()) {
                        let s = self.unreachable[j].clone();
                        proof {
                            text::lemma_texts_push(hits@, s);
                        }
                        hits.push(s);
                    }
                }
                assert(un.take(un.len() as int) =~= un);
            }
        }
        assert(all.take(all.len() as int) =~= all);
        let ghost h = text::texts(hits@);
        let mut roots: Vec<String> = Vec::new();
        assert(text::texts(roots@) =~= order::sorted_set(h.take(0)));
        for i in 0..hits.len()
            invariant
                h == text::texts(hits@),
                text::texts(roots@) == order::sorted_set(h.take(i as int)),
        {
            proof {
                assert(h[i as int] == hits@[i as int]@);
                assert(h.take(i as int + 1).drop_last() =~= h.take(i as int));
            }
            order::insert_sorted(&mut roots, hits[i].as_str());
        }
        assert(h.take(h.len() as int) =~= h);
        assert(rows::vals(hits@) =~= h);
        let ghost rs = text::texts(roots@);
        let ghost f = |r: Seq<char>|
            RootV { root: r, affected: rows::keep(h, |x: Seq<char>| x == r).len() };
        let mut out: Vec<UnreachableRoot> = Vec::new();
        assert(rows::vals(out@) =~= rs.take(0).map_values(f));
        for i in 0..roots.len()
            invariant
                h == rows::vals(hits@),
                rs == text::texts(roots@),
                f == (|r: Seq<char>|
                    RootV { root: r, affected: rows::keep(h, |x: Seq<char>| x == r).len() }),
                rows::vals(out@) == rs.take(i as int).map_values(f),
        {
            let root = roots[i].as_str();
            let ghost p = |x: Seq<char>| x == root@;
            let affected: usize = rows::count_where(
                &hits,
                |t: &String| -> (b: bool)
                    ensures
                        b == p(t@)
                    { text::same_text(t.as_str(), root) },
                Ghost(p),
            );
            let u = UnreachableRoot { root: root.to_owned(), affected };
            proof {
                assert(rs[i as int] == root@);
                rows::lemma_keep_same(h, p, |x: Seq<char>| x == rs[i as int]);
                rows::lemma_vals_push(out@, u);
                assert(rs.take(i as int + 1).map_values(f) =~= rs.take(i as int).map_values(
                    f,
                ).push(u@));
            }
            out.push(u);
        }
        assert(rs.take(rs.len() as int) =~= rs);
        let ghost first = rows::vals(out@);
        let ghost un = ev.unreachable;
        for i in 0..self.unreachable.len()
            invariant
                un == text::texts(self.unreachable@),
                rows::vals(out@) == plus_unhit(first, un.take(i as int)),
        {
            let root = self.unreachable[i].as_str();
            let ghost t = rows::vals(out@);
            proof {
                assert(un[i as int] == root@);
                assert(un.take(i as int + 1).drop_last() =~= un.take(i as int));
                assert(un.take(i as int + 1).last() == root@);
            }
            let mut known = false;
            for j in 0..out.len()
                invariant
                    t == rows::vals(out@),
                    known == (exists|k: int| 0 <= k < j && (#[trigger] t[k]).root == root@),
            {
                assert(t[j as int] == out@[j as int]@);
                if text::same_text(out[j].root.as_str(), root) {
                    known = true;
                }
            }
            if !known {
                let u = UnreachableRoot { root: root.to_owned(), affected: 0 };
                proof {
                    rows::lemma_vals_push(out@, u);
                }
                out.push(u);
            }
        }
        assert(un.take(un.len() as int) =~= un);
        out
    }
}

/// Reports the debris of a collection. Read-only.
pub fn scan(evidence: &Evidence, db: &Db, coll: &types::Collection) -> (r: MaintenanceReport)
    ensures
        r@ == evidence@.report(db@.state, coll@.id),
{
    let paths = indexed_paths(&evidence.pairs);
    let mut orphans = evidence.find_store_orphans(&paths);
    let ghost a = orphans@;
    let state = match db.book_state_rows(coll.id.as_str()) {
        Ok(rows) => rows,
        Err(_) => Vec::new(),
    };
    assert(rows::vals(state@) =~= manifest_pairs(db@.state, coll@.id));
    let mut more = evidence.find_manifest_orphans(&state);
    let ghost b = more@;
    orphans.append(&mut more);
    assert(rows::vals(orphans@) =~= rows::vals(a) + rows::vals(b));
    MaintenanceReport {
        orphans,
        bad_stamps: evidence.find_bad_stamps(),
        dup_variants: evidence.find_dup_variants(&paths),
        multi_id: evidence.find_multi_ids(db, coll.id.as_str(), &paths),
        unreachable_roots: evidence.find_unreachable_roots(&paths),
    }
}

} // verus!
