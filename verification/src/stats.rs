//! What a run of indexing did, in counts.
use vstd::prelude::*;
use crate::formats;
use crate::order;
use crate::rows;
use crate::text;

verus! {

/// How many files with an extension were indexed, and how many were skipped or failed.
#[derive(Debug, PartialEq, Eq)]
pub struct FormatCount {
    pub ext: String,
    pub indexed: usize,
    pub skipped: usize,
}

/// What a [`FormatCount`] holds.
#[verifier::ext_equal]
pub struct FormatV {
    pub ext: Seq<char>,
    pub indexed: nat,
    pub skipped: nat,
}

impl View for FormatCount {
    type V = FormatV;

    open spec fn view(&self) -> FormatV {
        FormatV { ext: self.ext@, indexed: self.indexed as nat, skipped: self.skipped as nat }
    }
}

/// The extensions of some counts.
pub open spec fn exts(v: Seq<FormatV>) -> Seq<Seq<char>> {
    Seq::new(v.len(), |i: int| v[i].ext)
}

/// Counts with more for an extension, which is put in its place where it is missing.
pub open spec fn bumped(v: Seq<FormatV>, ext: Seq<char>, indexed: nat, skipped: nat) -> Seq<FormatV>
    decreases v.len(),
{
    if v.len() == 0 {
        seq![FormatV { ext, indexed, skipped }]
    } else if v.last().ext == ext {
        v.drop_last().push(
            FormatV { ext, indexed: v.last().indexed + indexed, skipped: v.last().skipped + skipped },
        )
    } else if order::before(v.last().ext, ext) {
        v.push(FormatV { ext, indexed, skipped })
    } else {
        bumped(v.drop_last(), ext, indexed, skipped).push(v.last())
    }
}

/// The counts for an extension; an extension without an entry has none.
pub open spec fn count_of(v: Seq<FormatV>, ext: Seq<char>) -> (nat, nat)
    decreases v.len(),
{
    if v.len() == 0 {
        (0, 0)
    } else if v.last().ext == ext {
        (v.last().indexed, v.last().skipped)
    } else {
        count_of(v.drop_last(), ext)
    }
}

/// Counts with those of others added, one extension after the other.
pub open spec fn added(v: Seq<FormatV>, more: Seq<FormatV>) -> Seq<FormatV>
    decreases more.len(),
{
    if more.len() == 0 {
        v
    } else {
        let m = more.last();
        bumped(added(v, more.drop_last()), m.ext, m.indexed, m.skipped)
    }
}

proof fn lemma_rises_parts(v: Seq<FormatV>)
    requires
        v.len() > 0,
        order::rises(exts(v)),
    ensures
        order::rises(exts(v.drop_last())),
        forall|i: int|
            0 <= i < v.len() - 1 ==> order::before(#[trigger] v[i].ext, v.last().ext),
{
    let e = exts(v);
    let d = exts(v.drop_last());
    assert forall|i: int, j: int| 0 <= i < j < d.len() implies order::before(
        #[trigger] d[i],
        #[trigger] d[j],
    ) by {
        assert(order::before(e[i], e[j]));
    }
    assert forall|i: int| 0 <= i < v.len() - 1 implies order::before(
        #[trigger] v[i].ext,
        v.last().ext,
    ) by {
        assert(order::before(e[i], e[v.len() - 1]));
    }
}

proof fn lemma_missing_counts_nothing(v: Seq<FormatV>, ext: Seq<char>)
    requires
        forall|i: int| 0 <= i < v.len() ==> (#[trigger] v[i]).ext != ext,
    ensures
        count_of(v, ext) == (0nat, 0nat),
    decreases v.len(),
{
    if v.len() > 0 {
        assert(v.last() == v[v.len() - 1]);
        assert forall|i: int| 0 <= i < v.drop_last().len() implies (#[trigger] v.drop_last()[i]).ext
            != ext by {
            assert(v.drop_last()[i] == v[i]);
        }
        lemma_missing_counts_nothing(v.drop_last(), ext);
    }
}

/// Counting for an extension adds to its counts and to no others, and keeps the order.
pub proof fn counting_adds_to_one_extension(
    v: Seq<FormatV>,
    ext: Seq<char>,
    indexed: nat,
    skipped: nat,
)
    requires
        order::rises(exts(v)),
    ensures
        order::rises(exts(bumped(v, ext, indexed, skipped))),
        count_of(bumped(v, ext, indexed, skipped), ext) == (
            count_of(v, ext).0 + indexed,
            count_of(v, ext).1 + skipped,
        ),
        forall|e: Seq<char>|
            e != ext ==> #[trigger] count_of(bumped(v, ext, indexed, skipped), e) == count_of(v, e),
        forall|x: FormatV|
            #[trigger] bumped(v, ext, indexed, skipped).contains(x) ==> x.ext == ext || v.contains(
                x,
            ),
    decreases v.len(),
{
    let r = bumped(v, ext, indexed, skipped);
    if v.len() == 0 {
        assert forall|e: Seq<char>| e != ext implies #[trigger] count_of(r, e) == count_of(v, e) by {
            reveal_with_fuel(count_of, 2);
        }
        reveal_with_fuel(count_of, 2);
        assert(r.last().ext == ext);
    } else if v.last().ext == ext {
        lemma_rises_parts(v);
        assert(r.drop_last() =~= v.drop_last());
        assert(exts(r) =~= exts(v));
        assert forall|x: Seq<char>| x != ext implies #[trigger] count_of(r, x) == count_of(v, x) by {
            reveal_with_fuel(count_of, 2);
        }
        assert forall|x: FormatV| #[trigger] r.contains(x) implies x.ext == ext || v.contains(x) by {
            let i = choose|i: int| 0 <= i < r.len() && r[i] == x;
            if i < v.len() - 1 {
                assert(v[i] == x);
            }
        }
    } else if order::before(v.last().ext, ext) {
        lemma_rises_parts(v);
        assert(r.drop_last() =~= v);
        let e = exts(r);
        assert forall|x: Seq<char>| x != ext implies #[trigger] count_of(r, x) == count_of(v, x) by {
            reveal_with_fuel(count_of, 2);
        }
        assert forall|i: int, j: int| 0 <= i < j < e.len() implies order::before(
            #[trigger] e[i],
            #[trigger] e[j],
        ) by {
            if j == v.len() {
                if i < v.len() - 1 {
                    assert(order::before(v[i].ext, v.last().ext));
                    order::lemma_before_transitive(v[i].ext, v.last().ext, ext);
                }
            } else {
                assert(order::before(exts(v)[i], exts(v)[j]));
            }
        }
        assert forall|i: int| 0 <= i < v.len() implies (#[trigger] v[i]).ext != ext by {
            order::lemma_before_irreflexive(ext);
            assert(e[i] == v[i].ext && e[v.len() as int] == ext);
            assert(order::before(e[i], e[v.len() as int]));
        }
        lemma_missing_counts_nothing(v, ext);
        assert forall|x: FormatV| #[trigger] r.contains(x) implies x.ext == ext || v.contains(x) by {
            let i = choose|i: int| 0 <= i < r.len() && r[i] == x;
            if i < v.len() {
                assert(v[i] == x);
            }
        }
    } else {
        lemma_rises_parts(v);
        let d = v.drop_last();
        let b = bumped(d, ext, indexed, skipped);
        counting_adds_to_one_extension(d, ext, indexed, skipped);
        order::lemma_before_total(v.last().ext, ext);
        assert(r.drop_last() =~= b);
        let e = exts(r);
        assert forall|x: Seq<char>| x != ext implies #[trigger] count_of(r, x) == count_of(v, x) by {
            assert(count_of(b, x) == count_of(d, x));
        }
        assert forall|i: int, j: int| 0 <= i < j < e.len() implies order::before(
            #[trigger] e[i],
            #[trigger] e[j],
        ) by {
            if j == b.len() {
                assert(b.contains(b[i]));
                if b[i].ext != ext {
                    let k = choose|k: int| 0 <= k < d.len() && d[k] == b[i];
                    assert(order::before(v[k].ext, v.last().ext));
                }
            } else {
                assert(order::before(exts(b)[i], exts(b)[j]));
            }
        }
        assert forall|x: FormatV| #[trigger] r.contains(x) implies x.ext == ext || v.contains(x) by {
            let i = choose|i: int| 0 <= i < r.len() && r[i] == x;
            if i < b.len() {
                assert(b.contains(x));
                if x.ext != ext {
                    let k = choose|k: int| 0 <= k < d.len() && d[k] == x;
                    assert(v[k] == x);
                }
            } else {
                assert(v[v.len() - 1] == x);
            }
        }
    }
}

/// No count exceeds a bound.
pub open spec fn within(v: Seq<FormatV>, bound: nat) -> bool {
    forall|i: int|
        0 <= i < v.len() ==> (#[trigger] v[i]).indexed <= bound && v[i].skipped <= bound
}

/// Counting one more file raises the bound by one.
pub proof fn lemma_bumped_within(v: Seq<FormatV>, ext: Seq<char>, indexed: nat, skipped: nat, k: nat)
    requires
        within(v, k),
        indexed <= 1,
        skipped <= 1,
    ensures
        within(bumped(v, ext, indexed, skipped), k + 1),
    decreases v.len(),
{
    if v.len() > 0 {
        assert(v.last() == v[v.len() - 1]);
        assert(within(v.drop_last(), k)) by {
            assert forall|i: int| 0 <= i < v.drop_last().len() implies (#[trigger] v.drop_last()[i]).indexed
                <= k && v.drop_last()[i].skipped <= k by {
                assert(v.drop_last()[i] == v[i]);
            }
        }
        lemma_bumped_within(v.drop_last(), ext, indexed, skipped, k);
    }
}

/// What an index run did.
#[derive(Debug, PartialEq, Eq)]
pub struct IndexStats {
    pub books_indexed: usize,
    pub books_unchanged: usize,
    pub books_skipped: usize,
    pub books_failed: usize,
    pub chunks_written: usize,
    /// Pending re-chunk work that the run planned.
    pub forced: usize,
    /// Counts by extension, in the order of the extensions.
    pub by_format: Vec<FormatCount>,
}

/// What [`IndexStats`] hold.
#[verifier::ext_equal]
pub struct StatsV {
    pub indexed: nat,
    pub unchanged: nat,
    pub skipped: nat,
    pub failed: nat,
    pub chunks: nat,
    pub forced: nat,
    pub by_format: Seq<FormatV>,
}

impl View for IndexStats {
    type V = StatsV;

    open spec fn view(&self) -> StatsV {
        StatsV {
            indexed: self.books_indexed as nat,
            unchanged: self.books_unchanged as nat,
            skipped: self.books_skipped as nat,
            failed: self.books_failed as nat,
            chunks: self.chunks_written as nat,
            forced: self.forced as nat,
            by_format: rows::vals(self.by_format@),
        }
    }
}

/// Nothing done.
pub open spec fn no_stats() -> StatsV {
    StatsV {
        indexed: 0,
        unchanged: 0,
        skipped: 0,
        failed: 0,
        chunks: 0,
        forced: 0,
        by_format: Seq::empty(),
    }
}

/// The extension that a file is counted under.
pub open spec fn counted_ext(path: Seq<char>) -> Seq<char> {
    match formats::ext_name(path) {
        Some(e) => e,
        None => "other"@,
    }
}

impl StatsV {
    /// How many books are accounted for.
    pub open spec fn books(self) -> nat {
        self.indexed + self.unchanged + self.skipped + self.failed
    }

    /// The counts by extension are in order.
    pub open spec fn ordered(self) -> bool {
        order::rises(exts(self.by_format))
    }

    /// With a file counted under its extension.
    pub open spec fn counted(self, path: Seq<char>, indexed: bool) -> StatsV {
        StatsV {
            by_format: bumped(
                self.by_format,
                counted_ext(path),
                if indexed {
                    1
                } else {
                    0
                },
                if indexed {
                    0
                } else {
                    1
                },
            ),
            ..self
        }
    }

    /// Two runs as one.
    pub open spec fn merged(self, other: StatsV) -> StatsV {
        StatsV {
            indexed: self.indexed + other.indexed,
            unchanged: self.unchanged + other.unchanged,
            skipped: self.skipped + other.skipped,
            failed: self.failed + other.failed,
            chunks: self.chunks + other.chunks,
            forced: self.forced + other.forced,
            by_format: added(self.by_format, other.by_format),
        }
    }

    /// The sums of two runs can be counted.
    pub open spec fn fits(self, other: StatsV) -> bool {
        &&& self.indexed + other.indexed <= usize::MAX
        &&& self.unchanged + other.unchanged <= usize::MAX
        &&& self.skipped + other.skipped <= usize::MAX
        &&& self.failed + other.failed <= usize::MAX
        &&& self.chunks + other.chunks <= usize::MAX
        &&& self.forced + other.forced <= usize::MAX
        &&& forall|e: Seq<char>|
            #![trigger count_of(self.by_format, e)]
            count_of(self.by_format, e).0 + count_of(other.by_format, e).0 <= usize::MAX
                && count_of(self.by_format, e).1 + count_of(other.by_format, e).1 <= usize::MAX
    }
}

/// Adds to the counts of an extension.
fn bump(v: &mut Vec<FormatCount>, ext: &str, indexed: usize, skipped: usize)
    requires
        order::rises(exts(rows::vals(old(v)@))),
        count_of(rows::vals(old(v)@), ext@).0 + indexed <= usize::MAX,
        count_of(rows::vals(old(v)@), ext@).1 + skipped <= usize::MAX,
    ensures
        rows::vals(final(v)@) == bumped(rows::vals(old(v)@), ext@, indexed as nat, skipped as nat),
{
    let ghost s = rows::vals(v@);
    let ghost v0 = v@;
    let ghost out = bumped(s, ext@, indexed as nat, skipped as nat);
    let ghost c = count_of(s, ext@);
    let mut i: usize = v.len();
    assert(s.take(i as int) =~= s);
    assert(s.skip(i as int) =~= Seq::empty());
    assert(out =~= bumped(s.take(i as int), ext@, indexed as nat, skipped as nat) + s.skip(i as int));
    while i > 0
        invariant
            i <= v@.len(),
            v@ == v0,
            v0 == old(v)@,
            s == rows::vals(v@),
            out == bumped(s, ext@, indexed as nat, skipped as nat),
            c == count_of(s.take(i as int), ext@),
            c.0 + indexed <= usize::MAX,
            c.1 + skipped <= usize::MAX,
            out == bumped(s.take(i as int), ext@, indexed as nat, skipped as nat) + s.skip(i as int),
        decreases i,
    {
        let ghost t = s.take(i as int);
        assert(t.drop_last() =~= s.take(i - 1));
        assert(t.last() == v@[i - 1]@);
        if text::same_text(v[i - 1].ext.as_str(), ext) {
            let x = FormatCount {
                ext: ext.to_owned(),
                indexed: v[i - 1].indexed + indexed,
                skipped: v[i - 1].skipped + skipped,
            };
            let ghost xv = x@;
            v.set(i - 1, x);
            assert(rows::vals(v@) =~= s.take(i - 1).push(xv) + s.skip(i as int));
            assert(rows::vals(v@) =~= out);
            return;
        }
        if order::comes_before(v[i - 1].ext.as_str(), ext) {
            let x = FormatCount { ext: ext.to_owned(), indexed, skipped };
            let ghost xv = x@;
            v.insert(i, x);
            assert(rows::vals(v@) =~= t.push(xv) + s.skip(i as int));
            assert(rows::vals(v@) =~= out);
            return;
        }
        assert(bumped(t, ext@, indexed as nat, skipped as nat) + s.skip(i as int) =~= bumped(
            s.take(i - 1),
            ext@,
            indexed as nat,
            skipped as nat,
        ) + s.skip(i - 1)) by {
            assert(s.skip(i - 1) =~= seq![t.last()] + s.skip(i as int));
        }
        i = i - 1;
    }
    let x = FormatCount { ext: ext.to_owned(), indexed, skipped };
    let ghost xv = x@;
    v.insert(0, x);
    assert(s.skip(0) =~= s);
    assert(rows::vals(v@) =~= seq![xv] + s);
    assert(rows::vals(v@) =~= out);
}

proof fn lemma_added(v: Seq<FormatV>, more: Seq<FormatV>)
    requires
        order::rises(exts(v)),
        order::rises(exts(more)),
    ensures
        order::rises(exts(added(v, more))),
        forall|e: Seq<char>|
            #[trigger] count_of(added(v, more), e) == (
                count_of(v, e).0 + count_of(more, e).0,
                count_of(v, e).1 + count_of(more, e).1,
            ),
    decreases more.len(),
{
    if more.len() > 0 {
        let m = more.last();
        let d = more.drop_last();
        lemma_rises_parts(more);
        lemma_added(v, d);
        counting_adds_to_one_extension(added(v, d), m.ext, m.indexed, m.skipped);
        order::lemma_before_irreflexive(m.ext);
        assert forall|i: int| 0 <= i < d.len() implies (#[trigger] d[i]).ext != m.ext by {
            assert(more[i] == d[i]);
        }
        lemma_missing_counts_nothing(d, m.ext);
    }
}

/// Merging two runs adds the counts of every extension.
pub proof fn merging_adds_every_extension(a: StatsV, b: StatsV, ext: Seq<char>)
    requires
        a.ordered(),
        b.ordered(),
    ensures
        a.merged(b).ordered(),
        a.merged(b).books() == a.books() + b.books(),
        count_of(a.merged(b).by_format, ext).0 == count_of(a.by_format, ext).0 + count_of(
            b.by_format,
            ext,
        ).0,
        count_of(a.merged(b).by_format, ext).1 == count_of(a.by_format, ext).1 + count_of(
            b.by_format,
            ext,
        ).1,
{
    lemma_added(a.by_format, b.by_format);
}

impl Default for IndexStats {
    fn default() -> (r: Self)
        ensures
            r@ == no_stats(),
    {
        let r = IndexStats {
            books_indexed: 0,
            books_unchanged: 0,
            books_skipped: 0,
            books_failed: 0,
            chunks_written: 0,
            forced: 0,
            by_format: Vec::new(),
        };
        assert(r@ =~= no_stats());
        r
    }
}

impl IndexStats {
    /// Folds another run's counts in: two phases report as one run.
    pub fn merge(&mut self, other: IndexStats)
        requires
            old(self)@.ordered(),
            other@.ordered(),
            old(self)@.fits(other@),
        ensures
            final(self)@ == old(self)@.merged(other@),
            final(self)@.ordered(),
    {
        let ghost a = self@;
        let ghost b = other@;
        self.books_indexed = self.books_indexed + other.books_indexed;
        self.books_unchanged = self.books_unchanged + other.books_unchanged;
        self.books_skipped = self.books_skipped + other.books_skipped;
        self.books_failed = self.books_failed + other.books_failed;
        self.chunks_written = self.chunks_written + other.chunks_written;
        self.forced = self.forced + other.forced;
        let ghost all = b.by_format;
        assert(all.take(0) =~= Seq::empty());
        for i in 0..other.by_format.len()
            invariant
                all == rows::vals(other.by_format@),
                order::rises(exts(all)),
                order::rises(exts(a.by_format)),
                a.fits(b),
                all == b.by_format,
                rows::vals(self.by_format@) == added(a.by_format, all.take(i as int)),
                self.books_indexed == a.indexed + b.indexed,
                self.books_unchanged == a.unchanged + b.unchanged,
                self.books_skipped == a.skipped + b.skipped,
                self.books_failed == a.failed + b.failed,
                self.chunks_written == a.chunks + b.chunks,
                self.forced == a.forced + b.forced,
        {
            let c = &other.by_format[i];
            proof {
                let done = all.take(i as int);
                assert(all.take(i + 1).drop_last() =~= done);
                assert(all.take(i + 1).last() == c@);
                assert(order::rises(exts(done))) by {
                    assert forall|p: int, q: int| 0 <= p < q < exts(done).len() implies order::before(
                        #[trigger] exts(done)[p],
                        #[trigger] exts(done)[q],
                    ) by {
                        assert(order::before(exts(all)[p], exts(all)[q]));
                    }
                }
                lemma_added(a.by_format, done);
                assert forall|k: int| 0 <= k < done.len() implies (#[trigger] done[k]).ext
                    != c@.ext by {
                    order::lemma_before_irreflexive(c@.ext);
                    assert(order::before(exts(all)[k], exts(all)[i as int]));
                }
                lemma_missing_counts_nothing(done, c@.ext);
                lemma_count_at(all, i as int);
                let both = count_of(a.by_format, c@.ext);
            }
            bump(&mut self.by_format, c.ext.as_str(), c.indexed, c.skipped);
        }
        proof {
            assert(all.take(all.len() as int) =~= all);
            lemma_added(a.by_format, all);
            assert(self@ =~= a.merged(b));
        }
    }

    /// Counts a file under its extension.
    pub fn count_format(&mut self, path: &str, indexed: bool)
        requires
            old(self)@.ordered(),
            count_of(old(self)@.by_format, counted_ext(path@)).0 + (if indexed {
                1int
            } else {
                0
            }) <= usize::MAX,
            count_of(old(self)@.by_format, counted_ext(path@)).1 + (if indexed {
                0int
            } else {
                1
            }) <= usize::MAX,
        ensures
            final(self)@ == old(self)@.counted(path@, indexed),
            final(self)@.ordered(),
    {
        let ext = match formats::ext_of(path) {
            Some(e) => e,
            None => "other",
        };
        let (i, s): (usize, usize) = if indexed {
            (1, 0)
        } else {
            (0, 1)
        };
        proof {
            counting_adds_to_one_extension(self@.by_format, ext@, i as nat, s as nat);
        }
        bump(&mut self.by_format, ext, i, s);
        assert(self@ =~= old(self)@.counted(path@, indexed));
    }

    /// The same counts once more.
    pub fn copy(&self) -> (r: Self)
        ensures
            r@ == self@,
    {
        let mut by_format: Vec<FormatCount> = Vec::new();
        for i in 0..self.by_format.len()
            invariant
                by_format@.len() == i,
                forall|k: int| 0 <= k < i ==> (#[trigger] by_format@[k])@ == self.by_format@[k]@,
        {
            let c = &self.by_format[i];
            by_format.push(
                FormatCount { ext: c.ext.clone(), indexed: c.indexed, skipped: c.skipped },
            );
        }
        assert(rows::vals(by_format@) =~= rows::vals(self.by_format@));
        IndexStats {
            books_indexed: self.books_indexed,
            books_unchanged: self.books_unchanged,
            books_skipped: self.books_skipped,
            books_failed: self.books_failed,
            chunks_written: self.chunks_written,
            forced: self.forced,
            by_format,
        }
    }

    /// The counts for an extension: indexed, and skipped or failed.
    pub fn format_count(&self, ext: &str) -> (r: (usize, usize))
        ensures
            (r.0 as nat, r.1 as nat) == count_of(self@.by_format, ext@),
    {
        let ghost s = self@.by_format;
        let mut i: usize = self.by_format.len();
        assert(s.take(i as int) =~= s);
        while i > 0
            invariant
                i <= self.by_format@.len(),
                s == rows::vals(self.by_format@),
                count_of(s.take(i as int), ext@) == count_of(s, ext@),
            decreases i,
        {
            assert(s.take(i as int).drop_last() =~= s.take(i - 1));
            assert(s.take(i as int).last() == self.by_format@[i - 1]@);
            if text::same_text(self.by_format[i - 1].ext.as_str(), ext) {
                return (self.by_format[i - 1].indexed, self.by_format[i - 1].skipped);
            }
            i = i - 1;
        }
        (0, 0)
    }
}

proof fn lemma_count_at(v: Seq<FormatV>, i: int)
    requires
        order::rises(exts(v)),
        0 <= i < v.len(),
    ensures
        count_of(v, v[i].ext) == (v[i].indexed, v[i].skipped),
    decreases v.len(),
{
    lemma_rises_parts(v);
    order::lemma_before_irreflexive(v[i].ext);
    if i < v.len() - 1 {
        assert(order::before(v[i].ext, v.last().ext));
        lemma_count_at(v.drop_last(), i);
    }
}

} // verus!
