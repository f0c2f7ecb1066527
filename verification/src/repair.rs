//! Repair steps for what a maintenance scan reports. Each step names what to delete or restamp in
//! the store; its manifest half is carried out here. A removed path is removed everywhere: store
//! rows under every id that holds it, manifest rows across all id schemes, and skip records.
use vstd::prelude::*;
use crate::ids;
use crate::maintenance;
use crate::maintenance::{DupItem, DupV, FixOutcome, MaintenanceReport, MultiIdItem, MultiV, OrphanItem, OrphanV, RemoveV, StampItem, StampV};
use crate::manifest;
use crate::manifest::{Db, DbV, StateV};
use crate::order;
use crate::rows;
use crate::text;
use crate::types;

verus! {

/// One repair.
#[derive(Debug, PartialEq, Eq)]
pub enum FixStep {
    /// Delete the ids from the store, then forget the path in the manifest.
    RemovePath { path: String, ids: Vec<String> },
    /// Forget a path in the manifest.
    ForgetPath { path: String },
    /// Drop one manifest row.
    ForgetBook { book_id: String },
    /// Delete the ids from the store, then drop their manifest rows.
    DropIds { ids: Vec<String> },
    /// Write the format stamp of the ids in the store.
    Restamp { to: String, ids: Vec<String> },
}

/// What a [`FixStep`] holds.
pub enum StepV {
    RemovePath { path: Seq<char>, ids: Seq<Seq<char>> },
    ForgetPath { path: Seq<char> },
    ForgetBook { book: Seq<char> },
    DropIds { ids: Seq<Seq<char>> },
    Restamp { to: Seq<char>, ids: Seq<Seq<char>> },
}

impl View for FixStep {
    type V = StepV;

    open spec fn view(&self) -> StepV {
        match self {
            FixStep::RemovePath { path, ids } => StepV::RemovePath {
                path: path@,
                ids: text::texts(ids@),
            },
            FixStep::ForgetPath { path } => StepV::ForgetPath { path: path@ },
            FixStep::ForgetBook { book_id } => StepV::ForgetBook { book: book_id@ },
            FixStep::DropIds { ids } => StepV::DropIds { ids: text::texts(ids@) },
            FixStep::Restamp { to, ids } => StepV::Restamp { to: to@, ids: text::texts(ids@) },
        }
    }
}

/// Steps so far, the paths they deal with, and how many rows they remove.
#[verifier::ext_equal]
pub struct StepsV {
    pub steps: Seq<StepV>,
    pub done: Seq<Seq<char>>,
    pub count: nat,
}

pub open spec fn no_steps() -> StepsV {
    StepsV { steps: Seq::empty(), done: Seq::empty(), count: 0 }
}

/// A removed path counts for its ids, and for one at least.
pub open spec fn weight(ids: Seq<Seq<char>>) -> nat {
    if ids.len() < 1 {
        1
    } else {
        ids.len()
    }
}

impl StepsV {
    /// Removes a path, unless that was done before.
    pub open spec fn remove(self, pairs: Seq<(Seq<char>, Seq<char>)>, path: Seq<char>) -> StepsV {
        if self.done.contains(path) {
            self
        } else {
            let ids = maintenance::ids_at(pairs, path);
            StepsV {
                steps: self.steps.push(StepV::RemovePath { path, ids }),
                done: self.done.push(path),
                count: self.count + weight(ids),
            }
        }
    }

    /// Repairs one orphan. A row without a path is dropped by itself: its path would match every
    /// other row without one.
    pub open spec fn orphan(self, pairs: Seq<(Seq<char>, Seq<char>)>, o: OrphanV) -> StepsV {
        if o.kind == "store"@ {
            self.remove(pairs, o.path)
        } else if o.path.len() == 0 {
            StepsV {
                steps: self.steps.push(StepV::ForgetBook { book: o.book }),
                count: self.count + 1,
                ..self
            }
        } else if self.done.contains(o.path) {
            StepsV { count: self.count + 1, ..self }
        } else {
            StepsV {
                steps: self.steps.push(StepV::ForgetPath { path: o.path }),
                done: self.done.push(o.path),
                count: self.count + 1,
            }
        }
    }
}

/// The repairs of some orphans.
pub open spec fn orphan_steps(
    pairs: Seq<(Seq<char>, Seq<char>)>,
    orphans: Seq<OrphanV>,
) -> StepsV
    decreases orphans.len(),
{
    if orphans.len() == 0 {
        no_steps()
    } else {
        orphan_steps(pairs, orphans.drop_last()).orphan(pairs, orphans.last())
    }
}

/// The repairs of one group of duplicates, after the steps so far.
pub open spec fn group_steps(
    before: StepsV,
    pairs: Seq<(Seq<char>, Seq<char>)>,
    remove: Seq<RemoveV>,
) -> StepsV
    decreases remove.len(),
{
    if remove.len() == 0 {
        StepsV { done: Seq::empty(), ..before }
    } else {
        group_steps(before, pairs, remove.drop_last()).remove(pairs, remove.last().path)
    }
}

/// The repairs of some groups of duplicates.
pub open spec fn dup_steps(pairs: Seq<(Seq<char>, Seq<char>)>, dups: Seq<DupV>) -> StepsV
    decreases dups.len(),
{
    if dups.len() == 0 {
        no_steps()
    } else {
        group_steps(dup_steps(pairs, dups.drop_last()), pairs, dups.last().remove)
    }
}

/// The repairs of files indexed under several ids.
pub open spec fn multi_steps(multi: Seq<MultiV>) -> StepsV
    decreases multi.len(),
{
    if multi.len() == 0 {
        no_steps()
    } else {
        let before = multi_steps(multi.drop_last());
        StepsV {
            steps: before.steps.push(StepV::DropIds { ids: multi.last().remove_ids }),
            count: before.count + multi.last().remove_ids.len(),
            ..before
        }
    }
}

/// The stamps with one target.
pub open spec fn stamped_to(to: Seq<char>) -> spec_fn(StampV) -> bool {
    |s: StampV| s.to == to
}

/// The books of some stamps.
pub open spec fn stamp_books(stamps: Seq<StampV>) -> Seq<Seq<char>> {
    Seq::new(stamps.len(), |i: int| stamps[i].book)
}

/// The repairs of format stamps, one per target.
pub open spec fn stamp_steps(stamps: Seq<StampV>, targets: Seq<Seq<char>>) -> StepsV
    decreases targets.len(),
{
    if targets.len() == 0 {
        no_steps()
    } else {
        let before = stamp_steps(stamps, targets.drop_last());
        let ids = stamp_books(rows::keep(stamps, stamped_to(targets.last())));
        StepsV {
            steps: before.steps.push(StepV::Restamp { to: targets.last(), ids }),
            count: before.count + ids.len(),
            ..before
        }
    }
}

/// The targets of some stamps, sorted.
pub open spec fn targets_of(stamps: Seq<StampV>) -> Seq<Seq<char>> {
    order::sorted_set(Seq::new(stamps.len(), |i: int| stamps[i].to))
}

/// A count as far as it fits.
pub open spec fn capped(n: nat) -> usize {
    if n > usize::MAX {
        usize::MAX
    } else {
        n as usize
    }
}

/// Steps, and how many rows they remove.
struct Steps {
    steps: Vec<FixStep>,
    done: Vec<String>,
    count: usize,
}

impl Steps {
    spec fn stands_for(self, v: StepsV) -> bool {
        rows::vals(self.steps@) == v.steps && text::texts(self.done@) == v.done && self.count
            == capped(v.count)
    }

    fn empty() -> (r: Steps)
        ensures
            r.stands_for(no_steps()),
    {
        let r = Steps { steps: Vec::new(), done: Vec::new(), count: 0 };
        assert(rows::vals(r.steps@) =~= Seq::empty());
        assert(text::texts(r.done@) =~= Seq::empty());
        r
    }

    fn add_count(&mut self, n: usize, Ghost(v): Ghost<StepsV>)
        requires
            old(self).stands_for(v),
        ensures
            final(self).stands_for(StepsV { count: v.count + n as nat, ..v }),
    {
        if usize::MAX - self.count < n {
            self.count = usize::MAX;
        } else {
            self.count = self.count + n;
        }
    }

    fn push_step(&mut self, s: FixStep, Ghost(v): Ghost<StepsV>)
        requires
            old(self).stands_for(v),
        ensures
            final(self).stands_for(StepsV { steps: v.steps.push(s@), ..v }),
    {
        proof {
            rows::lemma_vals_push(self.steps@, s);
        }
        self.steps.push(s);
    }

    fn mark_done(&mut self, path: &str, Ghost(v): Ghost<StepsV>)
        requires
            old(self).stands_for(v),
        ensures
            final(self).stands_for(StepsV { done: v.done.push(path@), ..v }),
    {
        let s = path.to_owned();
        proof {
            text::lemma_texts_push(self.done@, s);
        }
        self.done.push(s);
    }

    fn remove(&mut self, pairs: &Vec<(String, String)>, path: &str, Ghost(v): Ghost<StepsV>)
        requires
            old(self).stands_for(v),
        ensures
            final(self).stands_for(v.remove(rows::vals(pairs@), path@)),
    {
        if !order::holds(&self.done, path) {
            let ids = maintenance::ids_of_path(pairs, path);
            let ghost spec_ids = text::texts(ids@);
            let n: usize = if ids.len() < 1 {
                1
            } else {
                ids.len()
            };
            let ghost v1 = StepsV {
                steps: v.steps.push(StepV::RemovePath { path: path@, ids: spec_ids }),
                ..v
            };
            self.push_step(FixStep::RemovePath { path: path.to_owned(), ids }, Ghost(v));
            self.mark_done(path, Ghost(v1));
            self.add_count(n, Ghost(StepsV { done: v1.done.push(path@), ..v1 }));
        }
    }
}

fn plan_orphans(pairs: &Vec<(String, String)>, orphans: &Vec<OrphanItem>) -> (r: Steps)
    ensures
        r.stands_for(orphan_steps(rows::vals(pairs@), rows::vals(orphans@))),
{
    let ghost all = rows::vals(orphans@);
    let ghost ps = rows::vals(pairs@);
    let mut out = Steps::empty();
    for i in 0..orphans.len()
        invariant
            all == rows::vals(orphans@),
            ps == rows::vals(pairs@),
            out.stands_for(orphan_steps(ps, all.take(i as int))),
    {
        let o = &orphans[i];
        let ghost v = orphan_steps(ps, all.take(i as int));
        proof {
            assert(all[i as int] == o@);
            assert(all.take(i as int + 1).drop_last() =~= all.take(i as int));
            assert(all.take(i as int + 1).last() == o@);
        }
        if text::same_text(o.kind.as_str(), "store") {
            out.remove(pairs, o.path.as_str(), Ghost(v));
        } else if o.path.as_str().is_empty() {
            out.push_step(FixStep::ForgetBook { book_id: o.book_id.clone() }, Ghost(v));
            out.add_count(
                1,
                Ghost(
                    StepsV { steps: v.steps.push(StepV::ForgetBook { book: o@.book }), ..v },
                ),
            );
        } else if order::holds(&out.done, o.path.as_str()) {
            out.add_count(1, Ghost(v));
        } else {
            let ghost v1 = StepsV {
                steps: v.steps.push(StepV::ForgetPath { path: o@.path }),
                ..v
            };
            out.push_step(FixStep::ForgetPath { path: o.path.clone() }, Ghost(v));
            out.mark_done(o.path.as_str(), Ghost(v1));
            out.add_count(1, Ghost(StepsV { done: v1.done.push(o@.path), ..v1 }));
        }
    }
    assert(all.take(all.len() as int) =~= all);
    out
}

fn plan_dups(pairs: &Vec<(String, String)>, dups: &Vec<DupItem>) -> (r: Steps)
    ensures
        r.stands_for(dup_steps(rows::vals(pairs@), rows::vals(dups@))),
{
    let ghost all = rows::vals(dups@);
    let ghost ps = rows::vals(pairs@);
    let mut out = Steps::empty();
    for i in 0..dups.len()
        invariant
            all == rows::vals(dups@),
            ps == rows::vals(pairs@),
            out.stands_for(dup_steps(ps, all.take(i as int))),
    {
        let group = &dups[i];
        let ghost before = dup_steps(ps, all.take(i as int));
        let ghost rm = rows::vals(group.remove@);
        proof {
            assert(all[i as int] == group@);
            assert(all.take(i as int + 1).drop_last() =~= all.take(i as int));
            assert(all.take(i as int + 1).last() == group@);
        }
        out.done = Vec::new();
        assert(text::texts(out.done@) =~= Seq::empty());
        for j in 0..group.remove.len()
            invariant
                ps == rows::vals(pairs@),
                rm == rows::vals(group.remove@),
                out.stands_for(group_steps(before, ps, rm.take(j as int))),
        {
            proof {
                assert(rm[j as int] == group.remove@[j as int]@);
                assert(rm.take(j as int + 1).drop_last() =~= rm.take(j as int));
                assert(rm.take(j as int + 1).last() == rm[j as int]);
            }
            out.remove(
                pairs,
                group.remove[j].path.as_str(),
                Ghost(group_steps(before, ps, rm.take(j as int))),
            );
        }
        assert(rm.take(rm.len() as int) =~= rm);
    }
    assert(all.take(all.len() as int) =~= all);
    out
}

fn plan_multi(multi: &Vec<MultiIdItem>) -> (r: Steps)
    ensures
        r.stands_for(multi_steps(rows::vals(multi@))),
{
    let ghost all = rows::vals(multi@);
    let mut out = Steps::empty();
    for i in 0..multi.len()
        invariant
            all == rows::vals(multi@),
            out.stands_for(multi_steps(all.take(i as int))),
    {
        let m = &multi[i];
        let ghost v = multi_steps(all.take(i as int));
        proof {
            assert(all[i as int] == m@);
            assert(all.take(i as int + 1).drop_last() =~= all.take(i as int));
            assert(all.take(i as int + 1).last() == m@);
        }
        let ids = types::copy_strings(&m.remove_ids);
        let n: usize = m.remove_ids.len();
        out.push_step(FixStep::DropIds { ids }, Ghost(v));
        out.add_count(
            n,
            Ghost(StepsV { steps: v.steps.push(StepV::DropIds { ids: m@.remove_ids }), ..v }),
        );
    }
    assert(all.take(all.len() as int) =~= all);
    out
}

fn plan_stamps(stamps: &Vec<StampItem>) -> (r: Steps)
    ensures
        r.stands_for(stamp_steps(rows::vals(stamps@), targets_of(rows::vals(stamps@)))),
{
    let ghost all = rows::vals(stamps@);
    let ghost tos = Seq::new(all.len(), |i: int| all[i].to);
    let mut targets: Vec<String> = Vec::new();
    assert(text::texts(targets@) =~= order::sorted_set(tos.take(0)));
    for i in 0..stamps.len()
        invariant
            all == rows::vals(stamps@),
            tos == Seq::new(all.len(), |i: int| all[i].to),
            text::texts(targets@) == order::sorted_set(tos.take(i as int)),
    {
        proof {
            assert(tos[i as int] == stamps@[i as int]@.to);
            assert(tos.take(i as int + 1).drop_last() =~= tos.take(i as int));
        }
        order::insert_sorted(&mut targets, stamps[i].to.as_str());
    }
    assert(tos.take(tos.len() as int) =~= tos);
    let ghost ts = text::texts(targets@);
    let mut out = Steps::empty();
    for k in 0..targets.len()
        invariant
            all == rows::vals(stamps@),
            ts == text::texts(targets@),
            out.stands_for(stamp_steps(all, ts.take(k as int))),
    {
        let to = targets[k].as_str();
        let ghost p = stamped_to(to@);
        let ghost v = stamp_steps(all, ts.take(k as int));
        let mut ids: Vec<String> = Vec::new();
        proof {
            assert(ts[k as int] == to@);
            assert(ts.take(k as int + 1).drop_last() =~= ts.take(k as int));
            assert(ts.take(k as int + 1).last() == to@);
            assert(text::texts(ids@) =~= stamp_books(rows::keep(all.take(0), p)));
        }
        for i in 0..stamps.len()
            invariant
                all == rows::vals(stamps@),
                p == stamped_to(to@),
                text::texts(ids@) == stamp_books(rows::keep(all.take(i as int), p)),
        {
            proof {
                let s = all.take(i as int);
                assert(all[i as int] == stamps@[i as int]@);
                assert(all.take(i as int + 1) =~= s.push(all[i as int]));
                rows::lemma_keep_push(s, p, all[i as int]);
                assert(stamp_books(rows::keep(s, p).push(all[i as int])) =~= stamp_books(
                    rows::keep(s, p),
                ).push(all[i as int].book));
            }
            if text::same_text(stamps[i].to.as_str(), to) {
                let s = stamps[i].book_id.clone();
                proof {
                    text::lemma_texts_push(ids@, s);
                }
                ids.push(s);
            }
        }
        assert(all.take(all.len() as int) =~= all);
        let n: usize = ids.len();
        let ghost spec_ids = text::texts(ids@);
        assert(spec_ids.len() == n);
        out.push_step(FixStep::Restamp { to: to.to_owned(), ids }, Ghost(v));
        out.add_count(
            n,
            Ghost(
                StepsV { steps: v.steps.push(StepV::Restamp { to: to@, ids: spec_ids }), ..v },
            ),
        );
    }
    assert(ts.take(ts.len() as int) =~= ts);
    out
}

/// What to repair.
#[derive(Debug, Clone, Copy)]
pub struct Fixes {
    pub orphans: bool,
    pub stamps: bool,
    pub dups: bool,
    pub multi: bool,
}

/// The steps of a repair, in order, what they amount to, and whether the text index has to be
/// rebuilt afterwards.
#[derive(Debug)]
pub struct Repair {
    pub steps: Vec<FixStep>,
    pub outcome: FixOutcome,
    pub rebuild: bool,
}

/// The steps of a kind of repair, where it is asked for.
pub open spec fn asked(yes: bool, v: StepsV) -> StepsV {
    if yes {
        v
    } else {
        no_steps()
    }
}

/// Plans the repairs of a report made just now; a report that a client holds is never trusted.
pub fn apply(report: &MaintenanceReport, pairs: &Vec<(String, String)>, fixes: Fixes) -> (r: Repair)
    ensures
        ({
            let ps = rows::vals(pairs@);
            let o = asked(fixes.orphans, orphan_steps(ps, report@.orphans));
            let d = asked(fixes.dups, dup_steps(ps, report@.dup_variants));
            let m = asked(fixes.multi, multi_steps(report@.multi_id));
            let s = asked(
                fixes.stamps,
                stamp_steps(report@.bad_stamps, targets_of(report@.bad_stamps)),
            );
            &&& rows::vals(r.steps@) == o.steps + d.steps + m.steps + s.steps
            &&& r.outcome.orphans_removed == capped(o.count)
            &&& r.outcome.dup_rows_removed == capped(d.count)
            &&& r.outcome.multi_id_removed == capped(m.count)
            &&& r.outcome.restamped == capped(s.count)
            &&& r.rebuild <==> o.count + d.count + m.count + s.count > 0
        }),
{
    let mut o = if fixes.orphans {
        plan_orphans(pairs, &report.orphans)
    } else {
        Steps::empty()
    };
    let mut d = if fixes.dups {
        plan_dups(pairs, &report.dup_variants)
    } else {
        Steps::empty()
    };
    let mut m = if fixes.multi {
        plan_multi(&report.multi_id)
    } else {
        Steps::empty()
    };
    let mut s = if fixes.stamps {
        plan_stamps(&report.bad_stamps)
    } else {
        Steps::empty()
    };
    let rebuild = o.count > 0 || d.count > 0 || m.count > 0 || s.count > 0;
    let outcome = FixOutcome {
        orphans_removed: o.count,
        restamped: s.count,
        dup_rows_removed: d.count,
        multi_id_removed: m.count,
    };
    let ghost (a, b, c, e) = (o.steps@, d.steps@, m.steps@, s.steps@);
    let mut steps = o.steps;
    let mut more = d.steps;
    steps.append(&mut more);
    let mut more2 = m.steps;
    steps.append(&mut more2);
    let mut more3 = s.steps;
    steps.append(&mut more3);
    assert(rows::vals(steps@) =~= rows::vals(a) + rows::vals(b) + rows::vals(c) + rows::vals(e));
    Repair { steps, outcome, rebuild }
}

/// The manifest rows left when the books of some ids are forgotten.
pub open spec fn forget_books(state: Seq<StateV>, coll: Seq<char>, books: Seq<Seq<char>>) -> Seq<
    StateV,
>
    decreases books.len(),
{
    if books.len() == 0 {
        state
    } else {
        rows::keep(
            forget_books(state, coll, books.drop_last()),
            |x: StateV| !(manifest::of_book(coll, books.last()))(x),
        )
    }
}

/// The manifest when a path is forgotten.
pub open spec fn forget_path(db: DbV, coll: Seq<char>, path: Seq<char>) -> DbV {
    DbV {
        state: rows::keep(
            db.state,
            |x: StateV| !(manifest::at_path_or_book(coll, path, ids::book_id_of(path)))(x),
        ),
        skips: rows::keep(db.skips, |x: manifest::SkipV| !(manifest::skips_at(coll, path))(x)),
        ..db
    }
}

/// What a step does to the manifest.
pub open spec fn manifest_after(db: DbV, coll: Seq<char>, step: StepV) -> DbV {
    match step {
        StepV::RemovePath { path, ids } => forget_path(db, coll, path),
        StepV::ForgetPath { path } => forget_path(db, coll, path),
        StepV::ForgetBook { book } => DbV {
            state: rows::keep(db.state, |x: StateV| !(manifest::of_book(coll, book))(x)),
            ..db
        },
        StepV::DropIds { ids } => DbV { state: forget_books(db.state, coll, ids), ..db },
        StepV::Restamp { to, ids } => db,
    }
}

fn forget(db: &mut Db, collection_id: &str, path: &str)
    ensures
        final(db)@ == forget_path(old(db)@, collection_id@, path@),
{
    let id = ids::stable_book_id(path);
    let _ = db.clear_book_state_by_path(collection_id, path, id.as_str());
    let _ = db.erase_skips(collection_id, path);
}

/// Carries out the manifest half of a step, once its store half has succeeded.
pub fn run_step(db: &mut Db, collection_id: &str, step: &FixStep)
    ensures
        final(db)@ == manifest_after(old(db)@, collection_id@, step@),
{
    match step {
        FixStep::RemovePath { path, ids } => {
            forget(db, collection_id, path.as_str());
        },
        FixStep::ForgetPath { path } => {
            forget(db, collection_id, path.as_str());
        },
        FixStep::ForgetBook { book_id } => {
            let _ = db.delete_book_state(collection_id, book_id.as_str());
        },
        FixStep::DropIds { ids } => {
            let ghost all = text::texts(ids@);
            let ghost before = db@;
            for i in 0..ids.len()
                invariant
                    all == text::texts(ids@),
                    db@ == (DbV {
                        state: forget_books(before.state, collection_id@, all.take(i as int)),
                        ..before
                    }),
            {
                proof {
                    assert(all[i as int] == ids@[i as int]@);
                    assert(all.take(i as int + 1).drop_last() =~= all.take(i as int));
                    assert(all.take(i as int + 1).last() == all[i as int]);
                }
                let _ = db.delete_book_state(collection_id, ids[i].as_str());
            }
            assert(all.take(all.len() as int) =~= all);
        },
        FixStep::Restamp { to, ids } => {},
    }
}

} // verus!
