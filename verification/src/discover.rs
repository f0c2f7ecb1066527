//! The files of a collection, and where they lie.
use vstd::prelude::*;
use crate::formats;
use crate::order;
use crate::rows;
use crate::text;

verus! {

/// What stands at a source path of a collection.
#[derive(Debug, PartialEq, Eq)]
pub enum Listing {
    /// Nothing that can be read.
    Missing,
    /// A file.
    File(String),
    /// A directory, with every file that was reached below it.
    Directory(Vec<String>),
}

/// What a [`Listing`] holds.
pub enum ListingV {
    Missing,
    File(Seq<char>),
    Directory(Seq<Seq<char>>),
}

impl View for Listing {
    type V = ListingV;

    open spec fn view(&self) -> ListingV {
        match self {
            Listing::Missing => ListingV::Missing,
            Listing::File(p) => ListingV::File(p@),
            Listing::Directory(v) => ListingV::Directory(text::texts(v@)),
        }
    }
}

/// A file that ingest accepts.
pub open spec fn accepted() -> spec_fn(Seq<char>) -> bool {
    |p: Seq<char>| formats::supported(p)
}

/// The files at a source path that ingest accepts.
pub open spec fn listed(l: ListingV) -> Seq<Seq<char>> {
    match l {
        ListingV::Missing => Seq::empty(),
        ListingV::File(p) => rows::keep(seq![p], accepted()),
        ListingV::Directory(v) => rows::keep(v, accepted()),
    }
}

/// The files at some source paths that ingest accepts.
pub open spec fn all_listed(v: Seq<ListingV>) -> Seq<Seq<char>>
    decreases v.len(),
{
    if v.len() == 0 {
        Seq::empty()
    } else {
        all_listed(v.drop_last()) + listed(v.last())
    }
}

proof fn lemma_sorted_set_more(a: Seq<Seq<char>>, b: Seq<Seq<char>>)
    requires
        b.len() > 0,
    ensures
        order::sorted_set(a + b) == order::with(order::sorted_set(a + b.drop_last()), b.last()),
{
    assert((a + b).drop_last() =~= a + b.drop_last());
    assert((a + b).last() == b.last());
}

fn add_file(out: &mut Vec<String>, p: &str, Ghost(seen): Ghost<Seq<Seq<char>>>)
    requires
        text::texts(old(out)@) == order::sorted_set(seen),
    ensures
        text::texts(final(out)@) == order::sorted_set(seen + rows::keep(seq![p@], accepted())),
{
    proof {
        let one = seq![p@];
        assert(one =~= Seq::<Seq<char>>::empty().push(p@));
        rows::lemma_keep_push(Seq::<Seq<char>>::empty(), accepted(), p@);
        assert(rows::keep(Seq::<Seq<char>>::empty(), accepted()) =~= Seq::empty());
        if formats::supported(p@) {
            assert(rows::keep(one, accepted()) =~= one);
            lemma_sorted_set_more(seen, one);
            assert(seen + one.drop_last() =~= seen);
        } else {
            assert(seen + rows::keep(one, accepted()) =~= seen);
        }
    }
    if formats::is_supported(p) {
        order::insert_sorted(out, p);
    }
}

/// The files to index at the source paths of a collection: those that ingest accepts, each once and
/// in order.
pub fn discover_books(listings: &[Listing]) -> (r: Vec<String>)
    ensures
        text::texts(r@) == order::sorted_set(all_listed(rows::vals(listings@))),
{
    let ghost all = rows::vals(listings@);
    let mut out: Vec<String> = Vec::new();
    assert(text::texts(out@) =~= order::sorted_set(all_listed(all.take(0))));
    for i in 0..listings.len()
        invariant
            all == rows::vals(listings@),
            text::texts(out@) == order::sorted_set(all_listed(all.take(i as int))),
    {
        let ghost seen = all_listed(all.take(i as int));
        proof {
            assert(all.take(i + 1).drop_last() =~= all.take(i as int));
            assert(all.take(i + 1).last() == listings@[i as int]@);
        }
        match &listings[i] {
            Listing::Missing => {
                assert(seen + Seq::<Seq<char>>::empty() =~= seen);
            },
            Listing::File(p) => {
                add_file(&mut out, p.as_str(), Ghost(seen));
            },
            Listing::Directory(v) => {
                let ghost files = text::texts(v@);
                assert(seen + rows::keep(files.take(0), accepted()) =~= seen);
                for j in 0..v.len()
                    invariant
                        files == text::texts(v@),
                        text::texts(out@) == order::sorted_set(
                            seen + rows::keep(files.take(j as int), accepted()),
                        ),
                {
                    let ghost so_far = seen + rows::keep(files.take(j as int), accepted());
                    proof {
                        assert(files.take(j + 1) =~= files.take(j as int).push(v@[j as int]@));
                        rows::lemma_keep_push(
                            files.take(j as int),
                            accepted(),
                            v@[j as int]@,
                        );
                        let one = seq![v@[j as int]@];
                        assert(one =~= Seq::<Seq<char>>::empty().push(v@[j as int]@));
                        rows::lemma_keep_push(
                            Seq::<Seq<char>>::empty(),
                            accepted(),
                            v@[j as int]@,
                        );
                        assert(rows::keep(Seq::<Seq<char>>::empty(), accepted()) =~= Seq::empty());
                        assert(so_far + rows::keep(one, accepted()) =~= seen + rows::keep(
                            files.take(j + 1),
                            accepted(),
                        ));
                    }
                    add_file(&mut out, v[j].as_str(), Ghost(so_far));
                }
                assert(files.take(files.len() as int) =~= files);
            },
        }
    }
    assert(all.take(all.len() as int) =~= all);
    out
}

proof fn lemma_listed_supported(v: Seq<ListingV>, x: Seq<char>)
    requires
        all_listed(v).contains(x),
    ensures
        formats::supported(x),
    decreases v.len(),
{
    if v.len() > 0 {
        let a = all_listed(v.drop_last());
        let b = listed(v.last());
        if a.contains(x) {
            lemma_listed_supported(v.drop_last(), x);
        } else {
            let i = choose|i: int| 0 <= i < (a + b).len() && (a + b)[i] == x;
            if i < a.len() {
                assert(a[i] == x);
            }
            assert(b[i - a.len()] == x);
            match v.last() {
                ListingV::Missing => {},
                ListingV::File(p) => rows::lemma_keep(seq![p], accepted()),
                ListingV::Directory(f) => rows::lemma_keep(f, accepted()),
            }
            assert(accepted()(b[i - a.len()]));
        }
    }
}

/// What is discovered is in order, without duplicates, and all of it is accepted by ingest.
pub proof fn discovered_files_are_distinct_and_accepted(v: Seq<ListingV>, k: int)
    ensures
        order::rises(order::sorted_set(all_listed(v))),
        0 <= k < order::sorted_set(all_listed(v)).len() ==> formats::supported(
            order::sorted_set(all_listed(v))[k],
        ),
{
    let s = order::sorted_set(all_listed(v));
    order::lemma_sorted_set(all_listed(v));
    if 0 <= k < s.len() {
        assert(s.contains(s[k]));
        lemma_listed_supported(v, s[k]);
    }
}

// ---- cloud drives ----------------------------------------------------------------------------

/// What tells a directory that a cloud client keeps in sync.
pub const CLOUD_MARKERS: [&'static str; 8] = [
    "/Library/Mobile Documents",
    "/Library/CloudStorage/",
    "/Dropbox",
    "/.dropbox",
    "/Google Drive",
    "/GoogleDrive",
    "/OneDrive",
    "/pCloud",
];

/// Whose client it is.
pub const CLOUD_NAMES: [&'static str; 8] = [
    "iCloud Drive",
    "a cloud drive (File Provider)",
    "Dropbox",
    "Dropbox",
    "Google Drive",
    "Google Drive",
    "OneDrive",
    "pCloud",
];

/// The first marker from the `i`th on that a path holds.
pub open spec fn first_marker(path: Seq<char>, i: int) -> Option<int>
    decreases 8 - i,
{
    if i < 0 || i >= 8 {
        None
    } else if text::contains(path, CLOUD_MARKERS@[i]@) {
        Some(i)
    } else {
        first_marker(path, i + 1)
    }
}

/// The cloud client that keeps a directory in sync, if any does. A synced directory is no place for
/// an index, which a client would spoil; reading books from one is fine.
pub fn cloud_sync_provider(path: &str) -> (r: Option<&'static str>)
    ensures
        match first_marker(path@, 0) {
            Some(i) => r is Some && r->0@ == CLOUD_NAMES@[i]@,
            None => r is None,
        },
{
    let v = text::chars_of(path);
    let markers = CLOUD_MARKERS;
    let names = CLOUD_NAMES;
    for i in 0..8usize
        invariant
            v@ == path@,
            markers == CLOUD_MARKERS,
            names == CLOUD_NAMES,
            first_marker(path@, i as int) == first_marker(path@, 0),
    {
        if text::has(&v, &text::chars_of(markers[i])) {
            return Some(names[i]);
        }
    }
    None
}

} // verus!
