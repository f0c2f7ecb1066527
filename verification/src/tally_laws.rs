//! What repairs do and how they are counted.
use vstd::prelude::*;
use crate::formats;
use crate::maintenance;
use crate::maintenance::{DupV, MultiV, OrphanV, RemoveV, StampV};
use crate::manifest;
use crate::manifest::StateV;
use crate::repair;
use crate::repair::{StepV, StepsV};
use crate::rows;
use vstd::seq_lib::*;

verus! {

/// What a step counts for: the ids it takes from the store, and one at least for a path.
pub open spec fn step_weight(s: StepV) -> nat {
    match s {
        StepV::RemovePath { path, ids } => if ids.len() == 0 {
            1
        } else {
            ids.len()
        },
        StepV::DropIds { ids } => ids.len(),
        StepV::Restamp { to, ids } => ids.len(),
        _ => 0,
    }
}

/// What some steps count for.
pub open spec fn weight_of(s: Seq<StepV>) -> nat
    decreases s.len(),
{
    if s.len() == 0 {
        0
    } else {
        weight_of(s.drop_last()) + step_weight(s.last())
    }
}

proof fn lemma_weight_push(s: Seq<StepV>, x: StepV)
    ensures
        weight_of(s.push(x)) == weight_of(s) + step_weight(x),
{
    assert(s.push(x).drop_last() =~= s);
}

proof fn lemma_group_count(
    before: StepsV,
    pairs: Seq<(Seq<char>, Seq<char>)>,
    remove: Seq<RemoveV>,
)
    requires
        before.count == weight_of(before.steps),
    ensures
        ({
            let v = repair::group_steps(before, pairs, remove);
            v.count == weight_of(v.steps)
        }),
    decreases remove.len(),
{
    if remove.len() > 0 {
        lemma_group_count(before, pairs, remove.drop_last());
        let v = repair::group_steps(before, pairs, remove.drop_last());
        let path = remove.last().path;
        lemma_weight_push(
            v.steps,
            StepV::RemovePath { path, ids: maintenance::ids_at(pairs, path) },
        );
    }
}

/// Removed duplicates count for as many ids as are removed.
pub proof fn duplicates_count_what_is_removed(
    pairs: Seq<(Seq<char>, Seq<char>)>,
    dups: Seq<DupV>,
)
    ensures
        repair::dup_steps(pairs, dups).count == weight_of(repair::dup_steps(pairs, dups).steps),
    decreases dups.len(),
{
    if dups.len() > 0 {
        duplicates_count_what_is_removed(pairs, dups.drop_last());
        lemma_group_count(
            repair::dup_steps(pairs, dups.drop_last()),
            pairs,
            dups.last().remove,
        );
    }
}

/// Files under several ids are each repaired by one step, which drops the ids that are not kept, and
/// they count for as many.
pub proof fn every_file_under_several_ids_is_repaired(multi: Seq<MultiV>)
    ensures
        repair::multi_steps(multi).steps == Seq::new(
            multi.len(),
            |i: int| StepV::DropIds { ids: multi[i].remove_ids },
        ),
        repair::multi_steps(multi).count == weight_of(repair::multi_steps(multi).steps),
    decreases multi.len(),
{
    if multi.len() == 0 {
        assert(repair::multi_steps(multi).steps =~= Seq::new(
            multi.len(),
            |i: int| StepV::DropIds { ids: multi[i].remove_ids },
        ));
    } else {
        let less = multi.drop_last();
        every_file_under_several_ids_is_repaired(less);
        lemma_weight_push(
            repair::multi_steps(less).steps,
            StepV::DropIds { ids: multi.last().remove_ids },
        );
        assert(repair::multi_steps(multi).steps =~= Seq::new(
            multi.len(),
            |i: int| StepV::DropIds { ids: multi[i].remove_ids },
        ));
    }
}

/// Stamps are repaired target by target, each with all books that are to have it, and count for as
/// many.
pub proof fn every_target_is_stamped(stamps: Seq<StampV>, targets: Seq<Seq<char>>)
    ensures
        repair::stamp_steps(stamps, targets).steps.len() == targets.len(),
        forall|i: int|
            0 <= i < targets.len() ==> (#[trigger] repair::stamp_steps(stamps, targets).steps[i]
                == (StepV::Restamp {
                to: targets[i],
                ids: rows::keep(stamps, repair::stamped_to(targets[i])).map_values(
                    |s: StampV| s.book,
                ),
            })),
        repair::stamp_steps(stamps, targets).count == weight_of(
            repair::stamp_steps(stamps, targets).steps,
        ),
    decreases targets.len(),
{
    if targets.len() > 0 {
        let less = targets.drop_last();
        let n = less.len() as int;
        every_target_is_stamped(stamps, less);
        let before = repair::stamp_steps(stamps, less).steps;
        let k = rows::keep(stamps, repair::stamped_to(targets.last()));
        assert(repair::stamp_books(k) =~= k.map_values(|s: StampV| s.book));
        lemma_weight_push(
            before,
            StepV::Restamp { to: targets.last(), ids: repair::stamp_books(k) },
        );
        let now = repair::stamp_steps(stamps, targets).steps;
        assert forall|i: int| 0 <= i < targets.len() implies #[trigger] now[i] == (StepV::Restamp {
            to: targets[i],
            ids: rows::keep(stamps, repair::stamped_to(targets[i])).map_values(
                |s: StampV| s.book,
            ),
        }) by {
            if i < n {
                assert(now[i] == before[i]);
                assert(less[i] == targets[i]);
            }
        }
    }
}

/// How many of some orphans are of a kind.
pub open spec fn kinds(orphans: Seq<OrphanV>) -> Seq<bool> {
    orphans.map_values(|o: OrphanV| o.kind == "store"@)
}

/// Removed orphans count for as many ids as are removed from the store, and one for every row of the
/// manifest.
pub proof fn orphans_count_what_is_removed(
    pairs: Seq<(Seq<char>, Seq<char>)>,
    orphans: Seq<OrphanV>,
)
    ensures
        ({
            let v = repair::orphan_steps(pairs, orphans);
            v.count == weight_of(v.steps) + kinds(orphans).to_multiset().count(false)
        }),
    decreases orphans.len(),
{
    broadcast use group_to_multiset_ensures;

    if orphans.len() == 0 {
        assert(kinds(orphans) =~= Seq::empty());
    } else {
        let less = orphans.drop_last();
        let o = orphans.last();
        orphans_count_what_is_removed(pairs, less);
        assert(kinds(orphans) =~= kinds(less).push(o.kind == "store"@));
        let v = repair::orphan_steps(pairs, less);
        lemma_weight_push(
            v.steps,
            StepV::RemovePath { path: o.path, ids: maintenance::ids_at(pairs, o.path) },
        );
        lemma_weight_push(v.steps, StepV::ForgetBook { book: o.book });
        lemma_weight_push(v.steps, StepV::ForgetPath { path: o.path });
    }
}

/// Forgetting books takes the rows of each of them in the collection, and no others.
pub proof fn forgetting_takes_every_book(
    state: Seq<StateV>,
    coll: Seq<char>,
    books: Seq<Seq<char>>,
    r: StateV,
)
    ensures
        repair::forget_books(state, coll, books).contains(r) <==> state.contains(r) && !(
        r.collection == coll && books.contains(r.book)),
    decreases books.len(),
{
    if books.len() > 0 {
        let less = books.drop_last();
        let book = books.last();
        forgetting_takes_every_book(state, coll, less, r);
        let before = repair::forget_books(state, coll, less);
        let p = |x: StateV| !(manifest::of_book(coll, books.last()))(x);
        let k = rows::keep(before, p);
        rows::lemma_keep(before, p);
        if k.contains(r) {
            let j = choose|j: int| 0 <= j < k.len() && k[j] == r;
            assert(p(k[j]));
        }
        assert(k.contains(r) <==> before.contains(r) && p(r));
        assert(books.contains(r.book) <==> less.contains(r.book) || r.book == book) by {
            if books.contains(r.book) {
                let i = choose|i: int| 0 <= i < books.len() && books[i] == r.book;
                if i < less.len() {
                    assert(less[i] == r.book);
                }
            }
            if less.contains(r.book) {
                let i = choose|i: int| 0 <= i < less.len() && less[i] == r.book;
                assert(books[i] == r.book);
            }
            assert(books[books.len() - 1] == book);
        }
    }
}

/// Two files are formats of one book exactly where their paths are alike but for the extension: the
/// key is the path up to the dot before it.
pub proof fn keys_are_paths_without_extension(path: Seq<char>)
    ensures
        match maintenance::file_variant(path) {
            Some(v) => {
                &&& formats::ext_name(path) is Some
                &&& v.path == path
                &&& v.key.len() + 1 + formats::ext_name(path)->0.len() == path.len()
                &&& v.key == path.subrange(0, v.key.len() as int)
            },
            None => formats::ext_name(path) is None || formats::format_of(path) is None
                || path.len() <= formats::ext_name(path)->0.len(),
        },
{
    if let Some(v) = maintenance::file_variant(path) {
        let n = path.len() - formats::ext_name(path)->0.len() - 1;
        assert(path.take(n) =~= path.subrange(0, n));
    }
}

/// No two formats have the same rank; PDF has the best, and EPUB the next.
pub proof fn formats_are_ranked_apart(a: formats::Format, b: formats::Format)
    ensures
        maintenance::format_rank(a) == maintenance::format_rank(b) <==> a == b,
        maintenance::format_rank(formats::Format::Pdf) <= maintenance::format_rank(a),
        a != formats::Format::Pdf ==> maintenance::format_rank(formats::Format::Epub)
            <= maintenance::format_rank(a),
{
}

} // verus!
