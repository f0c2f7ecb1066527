//! The deduplicating pre-filter shared by both ingest pipelines. It reads the manifest and writes
//! nothing: every change to the store or the manifest is returned as an action for the caller.
//!
//! The stages, per candidate file:
//!   1. fingerprint unchanged under the path-derived id: skip
//!   2. fingerprint reverse lookup (path-independent): skip or remap
//!   3. already present in the store, by id or by path: refresh and skip
//!   4. content-signature reverse lookup and in-run deduplication: skip or remap
//!
//! Anything that no stage skips or remaps is embedded.
use vstd::prelude::*;
use crate::ids;
use crate::manifest;
use crate::manifest::{BookStateHit, Db, DbError};
use crate::order;
use crate::rows;
use crate::text;

verus! {

/// Why a candidate was not embedded.
#[derive(Debug, Clone, Copy, PartialEq, Eq, Structural)]
pub enum SkipReason {
    /// Fingerprint/store says this exact book is already indexed.
    Unchanged,
    /// The file could not be read: no state is written.
    Unreadable,
    /// Identical content already queued earlier in this same run.
    DuplicateInRun,
    /// A recorded skip (same file, same pipeline capabilities): counted, never announced again.
    Silenced,
}

/// A moved file: re-point existing chunks instead of embedding again.
#[derive(Debug)]
pub struct RemapAction {
    pub old_id: String,
    pub new_id: String,
    pub path: String,
    pub fingerprint: String,
    pub content_sig: Option<String>,
    /// The moved row's chunker version, preserved so a legacy book keeps its re-index nudge.
    pub chunker_ver: i64,
}

/// What a [`RemapAction`] holds.
#[verifier::ext_equal]
pub struct RemapV {
    pub old_id: Seq<char>,
    pub new_id: Seq<char>,
    pub path: Seq<char>,
    pub fingerprint: Seq<char>,
    pub content_sig: Option<Seq<char>>,
    pub chunker_ver: int,
}

impl View for RemapAction {
    type V = RemapV;

    open spec fn view(&self) -> RemapV {
        RemapV {
            old_id: self.old_id@,
            new_id: self.new_id@,
            path: self.path@,
            fingerprint: self.fingerprint@,
            content_sig: text::opt_text(self.content_sig),
            chunker_ver: self.chunker_ver as int,
        }
    }
}

/// Refresh manifest state under an existing book id (no store rewrite).
#[derive(Debug)]
pub struct StateRefresh {
    pub book_id: String,
    pub path: String,
    pub fingerprint: String,
    /// `None` keeps whatever signature the row already has.
    pub content_sig: Option<String>,
}

/// What a [`StateRefresh`] holds.
#[verifier::ext_equal]
pub struct RefreshV {
    pub book: Seq<char>,
    pub path: Seq<char>,
    pub fingerprint: Seq<char>,
    pub content_sig: Option<Seq<char>>,
}

impl View for StateRefresh {
    type V = RefreshV;

    open spec fn view(&self) -> RefreshV {
        RefreshV {
            book: self.book_id@,
            path: self.path@,
            fingerprint: self.fingerprint@,
            content_sig: text::opt_text(self.content_sig),
        }
    }
}

/// A file the caller must extract and embed, with what to stamp on it afterwards.
#[derive(Debug)]
pub struct EmbedItem {
    pub path: String,
    pub fingerprint: String,
    pub content_sig: String,
}

/// What an [`EmbedItem`] holds.
#[verifier::ext_equal]
pub struct EmbedV {
    pub path: Seq<char>,
    pub fingerprint: Seq<char>,
    pub content_sig: Seq<char>,
}

impl View for EmbedItem {
    type V = EmbedV;

    open spec fn view(&self) -> EmbedV {
        EmbedV {
            path: self.path@,
            fingerprint: self.fingerprint@,
            content_sig: self.content_sig@,
        }
    }
}

/// A candidate that is not embedded, and why.
#[derive(Debug, PartialEq, Eq)]
pub struct PreSkip {
    pub path: String,
    pub reason: SkipReason,
}

/// What a [`PreSkip`] holds.
#[verifier::ext_equal]
pub struct PreSkipV {
    pub path: Seq<char>,
    pub reason: SkipReason,
}

impl View for PreSkip {
    type V = PreSkipV;

    open spec fn view(&self) -> PreSkipV {
        PreSkipV { path: self.path@, reason: self.reason }
    }
}

/// What a run has to do.
#[derive(Debug)]
pub struct IndexPlan {
    pub to_embed: Vec<EmbedItem>,
    pub preskips: Vec<PreSkip>,
    pub remaps: Vec<RemapAction>,
    pub state_refreshes: Vec<StateRefresh>,
    /// Re-chunk work this plan still carries: forced embeds, forced twins deferred as in-run
    /// duplicates, and remaps of legacy rows. A completed run that planned none of these is the
    /// fixed point at which the re-chunk flag is cleared.
    pub forced_count: usize,
}

/// What an [`IndexPlan`] holds.
#[verifier::ext_equal]
pub struct PlanV {
    pub to_embed: Seq<EmbedV>,
    pub preskips: Seq<PreSkipV>,
    pub remaps: Seq<RemapV>,
    pub refreshes: Seq<RefreshV>,
    pub forced: nat,
}

impl View for IndexPlan {
    type V = PlanV;

    open spec fn view(&self) -> PlanV {
        PlanV {
            to_embed: rows::vals(self.to_embed@),
            preskips: rows::vals(self.preskips@),
            remaps: rows::vals(self.remaps@),
            refreshes: rows::vals(self.state_refreshes@),
            forced: self.forced_count as nat,
        }
    }
}

impl Default for IndexPlan {
    fn default() -> (r: Self)
        ensures
            r@ == empty_plan(),
    {
        let r = IndexPlan {
            to_embed: Vec::new(),
            preskips: Vec::new(),
            remaps: Vec::new(),
            state_refreshes: Vec::new(),
            forced_count: 0,
        };
        assert(r@ =~= empty_plan());
        r
    }
}

/// Everything the pre-filter needs to know besides the candidates.
pub struct PlanCtx<'a> {
    pub collection_id: &'a str,
    pub db: &'a Db,
    /// Book ids present in the store.
    pub indexed_ids: &'a Vec<String>,
    /// `(book id, source path)` entries from the same scan.
    pub paths_by_id: &'a Vec<(String, String)>,
    /// Skip records are pipeline-scoped: one pipeline's inability never hides a file from the other.
    pub pipeline: &'a str,
    /// This run's capabilities; a recorded skip is honored only while they match.
    pub caps_ver: &'a str,
    /// Books whose chunks predate the current chunker are embedded again.
    pub rechunk: bool,
}

/// What a [`PlanCtx`] holds.
pub struct CtxV {
    pub coll: Seq<char>,
    pub state: Seq<manifest::StateV>,
    pub skips: Seq<manifest::SkipV>,
    pub indexed: Seq<Seq<char>>,
    pub scan: Seq<(Seq<char>, Seq<char>)>,
    pub pipeline: Seq<char>,
    pub caps: Seq<char>,
    pub rechunk: bool,
}

impl<'a> View for PlanCtx<'a> {
    type V = CtxV;

    open spec fn view(&self) -> CtxV {
        CtxV {
            coll: self.collection_id@,
            state: self.db@.state,
            skips: self.db@.skips,
            indexed: rows::vals(self.indexed_ids@),
            scan: rows::vals(self.paths_by_id@),
            pipeline: self.pipeline@,
            caps: self.caps_ver@,
            rechunk: self.rechunk,
        }
    }
}

/// What the file system answers about one candidate.
pub struct Facts {
    pub path: Seq<char>,
    pub fp: Seq<char>,
    pub sig: Seq<char>,
    /// The path of the row found by fingerprint is another name of this file.
    pub alias_fp: bool,
    /// The path of the row found by content is another name of this file.
    pub alias_sig: bool,
}

/// The plan so far and the content signatures queued so far.
#[verifier::ext_equal]
pub struct PlanSt {
    pub plan: PlanV,
    pub seen: Seq<Seq<char>>,
}

pub open spec fn empty_plan() -> PlanV {
    PlanV {
        to_embed: Seq::empty(),
        preskips: Seq::empty(),
        remaps: Seq::empty(),
        refreshes: Seq::empty(),
        forced: 0,
    }
}

impl PlanV {
    pub open spec fn skip(self, path: Seq<char>, reason: SkipReason) -> PlanV {
        PlanV { preskips: self.preskips.push(PreSkipV { path, reason }), ..self }
    }

    pub open spec fn refresh(
        self,
        book: Seq<char>,
        f: Facts,
        content_sig: Option<Seq<char>>,
    ) -> PlanV {
        PlanV {
            refreshes: self.refreshes.push(
                RefreshV { book, path: f.path, fingerprint: f.fp, content_sig },
            ),
            ..self
        }
    }

    pub open spec fn embed(self, f: Facts) -> PlanV {
        PlanV {
            to_embed: self.to_embed.push(
                EmbedV { path: f.path, fingerprint: f.fp, content_sig: f.sig },
            ),
            ..self
        }
    }

    pub open spec fn force(self, n: nat) -> PlanV {
        PlanV { forced: self.forced + n, ..self }
    }

    /// A move: the row's chunks are re-pointed to the candidate. A legacy row that moves under
    /// re-chunk is still pending work.
    pub open spec fn remap(self, ctx: CtxV, row: manifest::StateV, f: Facts) -> PlanV {
        PlanV {
            remaps: self.remaps.push(
                RemapV {
                    old_id: row.book,
                    new_id: ids::book_id_of(f.path),
                    path: f.path,
                    fingerprint: f.fp,
                    content_sig: Some(f.sig),
                    chunker_ver: row.chunker_ver,
                },
            ),
            ..self
        }.force(
            if ctx.rechunk && row.chunker_ver < manifest::CURRENT_CHUNKER_VER {
                1
            } else {
                0
            },
        )
    }
}

/// The store entries under a path.
pub open spec fn at_path(path: Seq<char>) -> spec_fn((Seq<char>, Seq<char>)) -> bool {
    |e: (Seq<char>, Seq<char>)| e.1 == path
}

impl CtxV {
    /// The row of the candidate's own path-derived id.
    pub open spec fn own_row(self, f: Facts) -> Option<manifest::StateV> {
        manifest::row_of(self.state, self.coll, ids::book_id_of(f.path))
    }

    /// The same file was skipped by this pipeline with the same capabilities.
    pub open spec fn silenced(self, f: Facts) -> bool {
        match rows::find_row(self.skips, manifest::of_skip(self.coll, f.path, self.pipeline)) {
            Some(s) => s.fingerprint == f.fp && s.caps_ver == self.caps,
            None => false,
        }
    }

    /// The store holds chunks under the candidate's path.
    pub open spec fn path_indexed(self, f: Facts) -> bool {
        self.book_at(f) is Some
    }

    /// The first store entry under the candidate's path.
    pub open spec fn book_at(self, f: Facts) -> Option<(Seq<char>, Seq<char>)> {
        rows::find_row(self.scan, at_path(f.path))
    }

    /// The candidate's chunks predate the current chunker. Without a manifest row, chunks in the
    /// store are legacy by definition.
    pub open spec fn legacy(self, f: Facts) -> bool {
        match self.own_row(f) {
            Some(row) => row.chunker_ver < manifest::CURRENT_CHUNKER_VER,
            None => self.indexed.contains(ids::book_id_of(f.path)) || self.path_indexed(f),
        }
    }

    /// The candidate is embedded again only because its chunks are legacy.
    pub open spec fn forced(self, f: Facts) -> bool {
        self.rechunk && self.legacy(f)
    }

    /// Nothing about the file changed since it was indexed under its own id.
    pub open spec fn unchanged(self, f: Facts) -> bool {
        match self.own_row(f) {
            Some(row) => row.fingerprint == f.fp,
            None => false,
        }
    }

    /// The row of another book with the candidate's fingerprint.
    pub open spec fn fp_row(self, f: Facts) -> Option<manifest::StateV> {
        match manifest::row_with_fingerprint(self.state, self.coll, f.fp) {
            Some(row) => if row.book != ids::book_id_of(f.path) {
                Some(row)
            } else {
                None
            },
            None => None,
        }
    }

    /// The path of a row: its own, else what the store scan says, else none.
    pub open spec fn hit_path(self, row: manifest::StateV) -> Seq<char> {
        if row.source_path.len() > 0 {
            row.source_path
        } else {
            match manifest::scanned_path(self.scan, row.book) {
                Some(p) => p,
                None => Seq::empty(),
            }
        }
    }

    /// The row's path names the candidate, as it stands or as another name of the same file.
    pub open spec fn same_path(self, row: manifest::StateV, f: Facts, alias: bool) -> bool {
        self.hit_path(row).len() > 0 && (self.hit_path(row) == f.path || alias)
    }

    /// The row found by fingerprint is this same file under another id scheme.
    pub open spec fn same_file_by_fp(self, f: Facts) -> bool {
        self.fp_row(f) is Some && self.same_path(self.fp_row(f)->0, f, f.alias_fp)
    }

    /// The content signature has to be read to decide about the candidate.
    pub open spec fn needs_signature(self, f: Facts) -> bool {
        &&& !manifest::sentinel(f.fp)
        &&& !self.silenced(f)
        &&& self.forced(f) || (!self.unchanged(f) && if self.fp_row(f) is Some {
            !self.same_file_by_fp(f)
        } else {
            !self.indexed.contains(ids::book_id_of(f.path))
        })
    }

    /// The decision about a candidate that needs no signature.
    pub open spec fn early(self, plan: PlanV, f: Facts) -> PlanV {
        if manifest::sentinel(f.fp) {
            plan.skip(f.path, SkipReason::Unreadable)
        } else if self.silenced(f) {
            plan.skip(f.path, SkipReason::Silenced)
        } else if self.unchanged(f) {
            plan.skip(f.path, SkipReason::Unchanged)
        } else if self.fp_row(f) is Some {
            // The same file under another id scheme; only a missing path is filled in.
            let row = self.fp_row(f)->0;
            (if row.source_path.len() == 0 {
                plan.refresh(row.book, f, None)
            } else {
                plan
            }).skip(f.path, SkipReason::Unchanged)
        } else {
            // In the store without manifest state.
            plan.refresh(ids::book_id_of(f.path), f, None).skip(f.path, SkipReason::Unchanged)
        }
    }

    /// The row with the candidate's content.
    pub open spec fn sig_row(self, f: Facts) -> Option<manifest::StateV> {
        manifest::row_with_content(self.state, self.coll, f.sig)
    }

    /// The fingerprint match is confirmed by the content signature: the file moved.
    pub open spec fn moved_by_fp(self, f: Facts) -> bool {
        &&& self.fp_row(f) is Some
        &&& !manifest::sentinel(self.fp_row(f)->0.content_sig)
        &&& self.fp_row(f)->0.content_sig == f.sig
    }

    /// The decision about a candidate whose signature was read.
    pub open spec fn late(self, st: PlanSt, f: Facts) -> PlanSt {
        if manifest::sentinel(f.sig) {
            PlanSt { plan: st.plan.skip(f.path, SkipReason::Unreadable), ..st }
        } else if self.forced(f) {
            if st.seen.contains(f.sig) {
                PlanSt { plan: st.plan.force(1).skip(f.path, SkipReason::DuplicateInRun), ..st }
            } else {
                PlanSt { plan: st.plan.force(1).embed(f), seen: st.seen.push(f.sig) }
            }
        } else if self.moved_by_fp(f) {
            PlanSt {
                plan: st.plan.remap(self, self.fp_row(f)->0, f).skip(f.path, SkipReason::Unchanged),
                ..st
            }
        } else {
            self.by_store_and_content(st, f)
        }
    }

    /// The last stages: path membership, in-run duplicates, and the content-signature lookup, whose
    /// hit is identity.
    pub open spec fn by_store_and_content(self, st: PlanSt, f: Facts) -> PlanSt {
        if self.path_indexed(f) {
            PlanSt {
                plan: st.plan.refresh((self.book_at(f)->0).0, f, Some(f.sig)).skip(
                    f.path,
                    SkipReason::Unchanged,
                ),
                ..st
            }
        } else if st.seen.contains(f.sig) {
            PlanSt { plan: st.plan.skip(f.path, SkipReason::DuplicateInRun), ..st }
        } else if self.sig_row(f) is Some {
            let row = self.sig_row(f)->0;
            if self.same_path(row, f, f.alias_sig) || row.book == ids::book_id_of(f.path) {
                // Metadata churn: same content, stale fingerprint.
                PlanSt {
                    plan: st.plan.refresh(row.book, f, Some(f.sig)).skip(
                        f.path,
                        SkipReason::Unchanged,
                    ),
                    ..st
                }
            } else {
                PlanSt {
                    plan: st.plan.remap(self, row, f).skip(f.path, SkipReason::Unchanged),
                    ..st
                }
            }
        } else {
            PlanSt { plan: st.plan.embed(f), seen: st.seen.push(f.sig) }
        }
    }

    /// The row's path is there and differs from the candidate's, so whether both name one file has
    /// to be asked.
    pub open spec fn paths_differ(self, row: manifest::StateV, f: Facts) -> bool {
        self.hit_path(row).len() > 0 && self.hit_path(row) != f.path
    }

    /// Whether the row found by fingerprint is this file has to be asked.
    pub open spec fn asks_by_fp(self, f: Facts) -> bool {
        &&& !manifest::sentinel(f.fp)
        &&& !self.silenced(f)
        &&& !self.forced(f)
        &&& !self.unchanged(f)
        &&& self.fp_row(f) is Some
        &&& self.paths_differ(self.fp_row(f)->0, f)
    }

    /// Whether the row found by content is this file has to be asked, in the last stages.
    pub open spec fn asks_in_store(self, seen: Seq<Seq<char>>, f: Facts) -> bool {
        &&& !self.path_indexed(f)
        &&& !seen.contains(f.sig)
        &&& self.sig_row(f) is Some
        &&& self.paths_differ(self.sig_row(f)->0, f)
    }

    /// Whether the row found by content is this file has to be asked of a candidate whose signature
    /// was read.
    pub open spec fn asks_by_sig(self, seen: Seq<Seq<char>>, f: Facts) -> bool {
        &&& !manifest::sentinel(f.sig)
        &&& !self.forced(f)
        &&& !self.moved_by_fp(f)
        &&& self.asks_in_store(seen, f)
    }

    /// One candidate.
    pub open spec fn step(self, st: PlanSt, f: Facts) -> PlanSt {
        if self.needs_signature(f) {
            self.late(st, f)
        } else {
            PlanSt { plan: self.early(st.plan, f), ..st }
        }
    }

    /// A whole run over candidates with the given facts.
    pub open spec fn run(self, facts: Seq<Facts>) -> PlanSt
        decreases facts.len(),
    {
        if facts.len() == 0 {
            PlanSt { plan: empty_plan(), seen: Seq::empty() }
        } else {
            self.step(self.run(facts.drop_last()), facts.last())
        }
    }
}

/// `ans` is what `f` answered about a path.
pub open spec fn answered<F: Fn(&str) -> String>(f: F, path: Seq<char>, ans: Seq<char>) -> bool {
    exists|p: &str, s: String| #[trigger] f.ensures((p,), s) && p@ == path && s@ == ans
}

/// `ans` is what `f` answered about two paths.
pub open spec fn aliased<H: Fn(&str, &str) -> bool>(
    f: H,
    a: Seq<char>,
    b: Seq<char>,
    ans: bool,
) -> bool {
    exists|p: &str, q: &str| #[trigger] f.ensures((p, q), ans) && p@ == a && q@ == b
}

/// What is known of one file under two names, found by fingerprint, is what was answered, exactly
/// where it was asked.
pub open spec fn told_by_fp<H: Fn(&str, &str) -> bool>(ctx: CtxV, f: Facts, alias_fn: H) -> bool {
    if ctx.asks_by_fp(f) {
        aliased(alias_fn, ctx.hit_path(ctx.fp_row(f)->0), f.path, f.alias_fp)
    } else {
        !f.alias_fp
    }
}

/// The same for what is found by content, where `asked` says whether it was asked.
pub open spec fn told_by_sig<H: Fn(&str, &str) -> bool>(
    ctx: CtxV,
    asked: bool,
    f: Facts,
    alias_fn: H,
) -> bool {
    if asked {
        aliased(alias_fn, ctx.hit_path(ctx.sig_row(f)->0), f.path, f.alias_sig)
    } else {
        !f.alias_sig
    }
}

/// The facts are what the file system answered, wherever it was asked, about a candidate before
/// which the given signatures were queued.
pub open spec fn truthful<
    F: Fn(&str) -> String,
    G: Fn(&str) -> String,
    H: Fn(&str, &str) -> bool,
>(ctx: CtxV, seen: Seq<Seq<char>>, f: Facts, fp_fn: F, csig_fn: G, alias_fn: H) -> bool {
    &&& answered(fp_fn, f.path, f.fp)
    &&& told_by_fp(ctx, f, alias_fn)
    &&& ctx.needs_signature(f) ==> answered(csig_fn, f.path, f.sig)
    &&& told_by_sig(ctx, ctx.needs_signature(f) && ctx.asks_by_sig(seen, f), f, alias_fn)
}

/// The facts of a whole run are what the file system answered about its candidates, one by one.
pub open spec fn truthful_run<
    F: Fn(&str) -> String,
    G: Fn(&str) -> String,
    H: Fn(&str, &str) -> bool,
>(
    ctx: CtxV,
    paths: Seq<Seq<char>>,
    facts: Seq<Facts>,
    fp_fn: F,
    csig_fn: G,
    alias_fn: H,
) -> bool {
    &&& facts.len() == paths.len()
    &&& forall|i: int|
        0 <= i < facts.len() ==> #[trigger] facts[i].path == paths[i] && truthful(
            ctx,
            ctx.run(facts.take(i)).seen,
            facts[i],
            fp_fn,
            csig_fn,
            alias_fn,
        )
}

fn holds(v: &Vec<String>, s: &str) -> (r: bool)
    ensures
        r == rows::vals(v@).contains(s@),
{
    assert(rows::vals(v@) =~= text::texts(v@));
    order::holds(v, s)
}

/// The book the store holds under a path.
fn book_in_scan(scan: &Vec<(String, String)>, path: &str) -> (r: Option<String>)
    ensures
        match rows::find_row(rows::vals(scan@), at_path(path@)) {
            Some(e) => r is Some && r->0@ == e.0,
            None => r is None,
        },
{
    let ghost p = at_path(path@);
    let found = rows::find_where(
        scan,
        |t: &(String, String)| -> (b: bool)
            ensures
                b == p(t@)
            { text::same_text(t.1.as_str(), path) },
        Ghost(p),
    );
    match found {
        Some(i) => Some(scan[i].0.clone()),
        None => None,
    }
}

fn push_skip(plan: &mut IndexPlan, path: &str, reason: SkipReason)
    ensures
        final(plan)@ == old(plan)@.skip(path@, reason),
{
    let ghost before = plan.preskips@;
    let s = PreSkip { path: path.to_owned(), reason };
    plan.preskips.push(s);
    proof {
        rows::lemma_vals_push(before, s);
    }
}

fn push_refresh(plan: &mut IndexPlan, book: &str, path: &str, fp: &str, sig: Option<String>)
    ensures
        final(plan)@ == (PlanV {
            refreshes: old(plan)@.refreshes.push(
                RefreshV {
                    book: book@,
                    path: path@,
                    fingerprint: fp@,
                    content_sig: text::opt_text(sig),
                },
            ),
            ..old(plan)@
        }),
{
    let ghost before = plan.state_refreshes@;
    let s = StateRefresh {
        book_id: book.to_owned(),
        path: path.to_owned(),
        fingerprint: fp.to_owned(),
        content_sig: sig,
    };
    plan.state_refreshes.push(s);
    proof {
        rows::lemma_vals_push(before, s);
    }
}

fn push_embed(plan: &mut IndexPlan, path: &str, fp: &str, sig: String)
    ensures
        final(plan)@ == (PlanV {
            to_embed: old(plan)@.to_embed.push(
                EmbedV { path: path@, fingerprint: fp@, content_sig: sig@ },
            ),
            ..old(plan)@
        }),
{
    let ghost before = plan.to_embed@;
    let s = EmbedItem { path: path.to_owned(), fingerprint: fp.to_owned(), content_sig: sig };
    plan.to_embed.push(s);
    proof {
        rows::lemma_vals_push(before, s);
    }
}

impl<'a> PlanCtx<'a> {
    fn path_of_hit(&self, hit: &BookStateHit, Ghost(row): Ghost<manifest::StateV>) -> (r: String)
        requires
            hit@ == row.hit(),
        ensures
            r@ == self@.hit_path(row),
    {
        if !hit.source_path.as_str().is_empty() {
            return hit.source_path.clone();
        }
        match manifest::path_in_scan(self.paths_by_id, hit.book_id.as_str()) {
            Some(p) => p,
            None => String::new(),
        }
    }

    fn push_remap(
        &self,
        plan: &mut IndexPlan,
        hit: &BookStateHit,
        path: &str,
        book_id: &str,
        fp: &str,
        sig: &str,
        Ghost(row): Ghost<manifest::StateV>,
        Ghost(f): Ghost<Facts>,
    )
        requires
            hit@ == row.hit(),
            old(plan).forced_count < usize::MAX,
            f.path == path@,
            f.fp == fp@,
            f.sig == sig@,
            book_id@ == ids::book_id_of(f.path),
        ensures
            final(plan)@ == old(plan)@.remap(self@, row, f),
    {
        let ghost before = plan.remaps@;
        let s = RemapAction {
            old_id: hit.book_id.clone(),
            new_id: book_id.to_owned(),
            path: path.to_owned(),
            fingerprint: fp.to_owned(),
            content_sig: Some(sig.to_owned()),
            chunker_ver: hit.chunker_ver,
        };
        plan.remaps.push(s);
        proof {
            rows::lemma_vals_push(before, s);
        }
        if self.rechunk && hit.chunker_ver < manifest::CURRENT_CHUNKER_VER {
            plan.forced_count = plan.forced_count + 1;
        }
    }

    /// Whether the candidate's chunks predate the current chunker.
    fn is_legacy(&self, path: &str, book_id: &str, Ghost(f): Ghost<Facts>) -> (r: bool)
        requires
            f.path == path@,
            book_id@ == ids::book_id_of(f.path),
        ensures
            r == self@.legacy(f),
    {
        match self.db.book_chunker_ver(self.collection_id, book_id) {
            Ok(Some(v)) => v < manifest::CURRENT_CHUNKER_VER,
            Ok(None) => holds(self.indexed_ids, book_id) || book_in_scan(
                self.paths_by_id,
                path,
            ).is_some(),
            Err(_) => false,
        }
    }

    /// Decides about a candidate as far as that is possible without its content signature. Returns
    /// whether it was decided; if not, the plan is as it was.
    pub fn plan_by_metadata<H: Fn(&str, &str) -> bool>(
        &self,
        plan: &mut IndexPlan,
        path: &str,
        fp: &str,
        alias_fn: &H,
    ) -> (done: bool)
        requires
            forall|p: &str, q: &str| #[trigger] alias_fn.requires((p, q)),
        ensures
            exists|f: Facts|
                {
                    &&& f.path == path@ && f.fp == fp@
                    &&& told_by_fp(self@, f, *alias_fn)
                    &&& done == !#[trigger] self@.needs_signature(f)
                    &&& final(plan)@ == if done {
                        self@.early(old(plan)@, f)
                    } else {
                        old(plan)@
                    }
                },
    {
        let ghost f0 = Facts {
            path: path@,
            fp: fp@,
            sig: Seq::empty(),
            alias_fp: false,
            alias_sig: false,
        };
        if manifest::is_sig_sentinel(fp) {
            assert(!self@.needs_signature(f0));
            push_skip(plan, path, SkipReason::Unreadable);
            return true;
        }
        if let Ok(Some(s)) = self.db.skip_state_hit(self.collection_id, path, self.pipeline) {
            if text::same_text(s.0.as_str(), fp) && text::same_text(s.1.as_str(), self.caps_ver) {
                assert(!self@.needs_signature(f0));
                push_skip(plan, path, SkipReason::Silenced);
                return true;
            }
        }
        let book_id = ids::stable_book_id(path);
        if self.rechunk && self.is_legacy(path, book_id.as_str(), Ghost(f0)) {
            assert(self@.needs_signature(f0));
            return false;
        }
        if let Ok(Some(own)) = self.db.book_fingerprint(self.collection_id, book_id.as_str()) {
            if text::same_text(own.as_str(), fp) {
                assert(!self@.needs_signature(f0));
                push_skip(plan, path, SkipReason::Unchanged);
                return true;
            }
        }
        if let Ok(Some(hit)) = self.db.book_state_for_fingerprint(self.collection_id, fp) {
            let ghost row = manifest::row_with_fingerprint(self@.state, self@.coll, fp@)->0;
            if !text::same_text(hit.book_id.as_str(), book_id.as_str()) {
                let old_path = self.path_of_hit(&hit, Ghost(row));
                let mut same = false;
                let ghost mut f = f0;
                if !old_path.as_str().is_empty() {
                    if text::same_text(old_path.as_str(), path) {
                        same = true;
                    } else {
                        same = alias_fn(old_path.as_str(), path);
                        proof {
                            f = Facts { alias_fp: same, ..f0 };
                            assert(aliased(*alias_fn, old_path@, path@, same));
                        }
                    }
                }
                assert(self@.fp_row(f) == Some(row));
                if same {
                    assert(!self@.needs_signature(f));
                    if hit.source_path.as_str().is_empty() {
                        push_refresh(plan, hit.book_id.as_str(), path, fp, None);
                    }
                    push_skip(plan, path, SkipReason::Unchanged);
                    return true;
                }
                assert(self@.needs_signature(f));
                return false;
            }
        }
        assert(self@.fp_row(f0) is None);
        if holds(self.indexed_ids, book_id.as_str()) {
            assert(!self@.needs_signature(f0));
            push_refresh(plan, book_id.as_str(), path, fp, None);
            push_skip(plan, path, SkipReason::Unchanged);
            return true;
        }
        assert(self@.needs_signature(f0));
        false
    }

    /// Decides about a candidate whose content signature was read.
    pub fn plan_by_content<H: Fn(&str, &str) -> bool>(
        &self,
        plan: &mut IndexPlan,
        seen: &mut Vec<String>,
        path: &str,
        fp: &str,
        csig: &str,
        alias_fn: &H,
    )
        requires
            old(plan).forced_count < usize::MAX,
            forall|p: &str, q: &str| #[trigger] alias_fn.requires((p, q)),
        ensures
            exists|f: Facts|
                {
                    &&& f.path == path@ && f.fp == fp@ && f.sig == csig@ && !f.alias_fp
                    &&& told_by_sig(
                        self@,
                        self@.asks_by_sig(rows::vals(old(seen)@), f),
                        f,
                        *alias_fn,
                    )
                    &&& (PlanSt { plan: final(plan)@, seen: rows::vals(final(seen)@) })
                        == #[trigger] self@.late(
                        PlanSt { plan: old(plan)@, seen: rows::vals(old(seen)@) },
                        f,
                    )
                },
            final(plan).forced_count <= old(plan).forced_count + 1,
    {
        let ghost st = PlanSt { plan: plan@, seen: rows::vals(seen@) };
        let ghost f0 = Facts {
            path: path@,
            fp: fp@,
            sig: csig@,
            alias_fp: false,
            alias_sig: false,
        };
        let ghost out = self@.late(st, f0);
        if manifest::is_sig_sentinel(csig) {
            push_skip(plan, path, SkipReason::Unreadable);
            return ;
        }
        let book_id = ids::stable_book_id(path);
        if self.rechunk && self.is_legacy(path, book_id.as_str(), Ghost(f0)) {
            plan.forced_count = plan.forced_count + 1;
            if holds(seen, csig) {
                push_skip(plan, path, SkipReason::DuplicateInRun);
            } else {
                let s = csig.to_owned();
                proof {
                    rows::lemma_vals_push(seen@, s);
                }
                seen.push(s);
                push_embed(plan, path, fp, csig.to_owned());
            }
            assert((PlanSt { plan: plan@, seen: rows::vals(seen@) }) =~= out);
            return ;
        }
        if let Ok(Some(hit)) = self.db.book_state_for_fingerprint(self.collection_id, fp) {
            let ghost row = manifest::row_with_fingerprint(self@.state, self@.coll, fp@)->0;
            if !text::same_text(hit.book_id.as_str(), book_id.as_str()) {
                assert(self@.fp_row(f0) == Some(row));
                if !manifest::is_sig_sentinel(hit.content_sig.as_str()) && text::same_text(
                    csig,
                    hit.content_sig.as_str(),
                ) {
                    self.push_remap(
                        plan,
                        &hit,
                        path,
                        book_id.as_str(),
                        fp,
                        csig,
                        Ghost(row),
                        Ghost(f0),
                    );
                    push_skip(plan, path, SkipReason::Unchanged);
                    assert((PlanSt { plan: plan@, seen: rows::vals(seen@) }) =~= out);
                    return ;
                }
            }
        }
        assert(!self@.moved_by_fp(f0));
        self.stage_3_4(plan, seen, path, book_id.as_str(), fp, csig, alias_fn);
        proof {
            let f = choose|f: Facts|
                {
                    &&& f.path == path@ && f.fp == fp@ && f.sig == csig@ && !f.alias_fp
                    &&& told_by_sig(self@, self@.asks_in_store(st.seen, f), f, *alias_fn)
                    &&& (PlanSt { plan: plan@, seen: rows::vals(seen@) })
                        == #[trigger] self@.by_store_and_content(st, f)
                };
            assert(self@.fp_row(f) == self@.fp_row(f0));
            assert(self@.forced(f) == self@.forced(f0));
            assert(self@.late(st, f) == self@.by_store_and_content(st, f));
        }
    }

    /// The stages shared by every candidate that is not decided before: path membership, in-run
    /// duplicates and the content-signature reverse lookup.
    fn stage_3_4<H: Fn(&str, &str) -> bool>(
        &self,
        plan: &mut IndexPlan,
        seen: &mut Vec<String>,
        path: &str,
        book_id: &str,
        fp: &str,
        csig: &str,
        alias_fn: &H,
    )
        requires
            old(plan).forced_count < usize::MAX,
            book_id@ == ids::book_id_of(path@),
            !manifest::sentinel(csig@),
            forall|p: &str, q: &str| #[trigger] alias_fn.requires((p, q)),
        ensures
            exists|f: Facts|
                {
                    &&& f.path == path@ && f.fp == fp@ && f.sig == csig@ && !f.alias_fp
                    &&& told_by_sig(
                        self@,
                        self@.asks_in_store(rows::vals(old(seen)@), f),
                        f,
                        *alias_fn,
                    )
                    &&& (PlanSt { plan: final(plan)@, seen: rows::vals(final(seen)@) })
                        == #[trigger] self@.by_store_and_content(
                        PlanSt { plan: old(plan)@, seen: rows::vals(old(seen)@) },
                        f,
                    )
                },
            final(plan).forced_count <= old(plan).forced_count + 1,
    {
        let ghost st = PlanSt { plan: plan@, seen: rows::vals(seen@) };
        let ghost f0 = Facts {
            path: path@,
            fp: fp@,
            sig: csig@,
            alias_fp: false,
            alias_sig: false,
        };
        let ghost out = self@.by_store_and_content(st, f0);
        if let Some(id) = book_in_scan(self.paths_by_id, path) {
            push_refresh(plan, id.as_str(), path, fp, Some(csig.to_owned()));
            push_skip(plan, path, SkipReason::Unchanged);
            assert((PlanSt { plan: plan@, seen: rows::vals(seen@) }) =~= out);
            return ;
        }
        if holds(seen, csig) {
            push_skip(plan, path, SkipReason::DuplicateInRun);
            assert((PlanSt { plan: plan@, seen: rows::vals(seen@) }) =~= out);
            return ;
        }
        if let Ok(Some(hit)) = self.db.book_state_for_content(self.collection_id, csig) {
            let ghost row = manifest::row_with_content(self@.state, self@.coll, csig@)->0;
            assert(self@.sig_row(f0) == Some(row));
            let old_path = self.path_of_hit(&hit, Ghost(row));
            let mut same = text::same_text(hit.book_id.as_str(), book_id);
            let ghost mut f = f0;
            if !old_path.as_str().is_empty() {
                if text::same_text(old_path.as_str(), path) {
                    same = true;
                } else {
                    let one = alias_fn(old_path.as_str(), path);
                    proof {
                        f = Facts { alias_sig: one, ..f0 };
                        assert(aliased(*alias_fn, old_path@, path@, one));
                    }
                    same = same || one;
                }
            }
            assert(self@.sig_row(f) == Some(row));
            let ghost out2 = self@.by_store_and_content(st, f);
            if same {
                push_refresh(plan, hit.book_id.as_str(), path, fp, Some(csig.to_owned()));
                push_skip(plan, path, SkipReason::Unchanged);
            } else {
                self.push_remap(plan, &hit, path, book_id, fp, csig, Ghost(row), Ghost(f));
                push_skip(plan, path, SkipReason::Unchanged);
            }
            assert((PlanSt { plan: plan@, seen: rows::vals(seen@) }) =~= out2);
            return ;
        }
        let s = csig.to_owned();
        proof {
            rows::lemma_vals_push(seen@, s);
        }
        seen.push(s);
        push_embed(plan, path, fp, csig.to_owned());
        assert((PlanSt { plan: plan@, seen: rows::vals(seen@) }) =~= out);
    }
}

/// Plans a run over the candidates. `fp_fn` and `csig_fn` give a file's fingerprint and content
/// signature, `alias_fn` whether two paths name one file; the last two are asked only where the
/// decision depends on them.
pub fn plan_index_run<
    F: Fn(&str) -> String,
    G: Fn(&str) -> String,
    H: Fn(&str, &str) -> bool,
>(candidates: &[String], ctx: &PlanCtx, fp_fn: F, csig_fn: G, alias_fn: H) -> (r: Result<
    IndexPlan,
    DbError,
>)
    requires
        forall|p: &str| #[trigger] fp_fn.requires((p,)),
        forall|p: &str| #[trigger] csig_fn.requires((p,)),
        forall|p: &str, q: &str| #[trigger] alias_fn.requires((p, q)),
    ensures
        r is Ok,
        exists|facts: Seq<Facts>|
            {
                &&& truthful_run(
                    ctx@,
                    text::texts(candidates@),
                    facts,
                    fp_fn,
                    csig_fn,
                    alias_fn,
                )
                &&& r->Ok_0@ == (#[trigger] ctx@.run(facts)).plan
            },
{
    let mut plan = IndexPlan::default();
    let mut seen: Vec<String> = Vec::new();
    let ghost mut facts: Seq<Facts> = Seq::empty();
    assert(rows::vals(seen@) =~= Seq::empty());
    for i in 0..candidates.len()
        invariant
            forall|p: &str| #[trigger] fp_fn.requires((p,)),
            forall|p: &str| #[trigger] csig_fn.requires((p,)),
            forall|p: &str, q: &str| #[trigger] alias_fn.requires((p, q)),
            facts.len() == i,
            forall|j: int|
                0 <= j < i ==> #[trigger] facts[j].path == candidates@[j]@ && truthful(
                    ctx@,
                    ctx@.run(facts.take(j)).seen,
                    facts[j],
                    fp_fn,
                    csig_fn,
                    alias_fn,
                ),
            (PlanSt { plan: plan@, seen: rows::vals(seen@) }) == ctx@.run(facts),
            plan.forced_count <= i,
    {
        let path = candidates[i].as_str();
        let ghost st = PlanSt { plan: plan@, seen: rows::vals(seen@) };
        let fp = fp_fn(path);
        assert(answered(fp_fn, path@, fp@));
        let done = ctx.plan_by_metadata(&mut plan, path, fp.as_str(), &alias_fn);
        let ghost f1 = choose|f: Facts|
            {
                &&& f.path == path@ && f.fp == fp@
                &&& told_by_fp(ctx@, f, alias_fn)
                &&& done == !#[trigger] ctx@.needs_signature(f)
                &&& plan@ == if done {
                    ctx@.early(st.plan, f)
                } else {
                    st.plan
                }
            };
        let ghost mut f = Facts { alias_sig: false, ..f1 };
        if !done {
            let csig = csig_fn(path);
            assert(answered(csig_fn, path@, csig@));
            ctx.plan_by_content(
                &mut plan,
                &mut seen,
                path,
                fp.as_str(),
                csig.as_str(),
                &alias_fn,
            );
            proof {
                let f2 = choose|f: Facts|
                    {
                        &&& f.path == path@ && f.fp == fp@ && f.sig == csig@ && !f.alias_fp
                        &&& told_by_sig(ctx@, ctx@.asks_by_sig(st.seen, f), f, alias_fn)
                        &&& (PlanSt { plan: plan@, seen: rows::vals(seen@) })
                            == #[trigger] ctx@.late(st, f)
                    };
                f = Facts { alias_fp: f1.alias_fp, ..f2 };
                assert(ctx@.fp_row(f) == ctx@.fp_row(f1));
                assert(ctx@.needs_signature(f) == ctx@.needs_signature(f1));
                assert(ctx@.late(st, f) == ctx@.late(st, f2));
            }
        } else {
            assert(ctx@.fp_row(f) == ctx@.fp_row(f1));
            assert(ctx@.needs_signature(f) == ctx@.needs_signature(f1));
            assert(ctx@.early(st.plan, f) == ctx@.early(st.plan, f1));
        }
        proof {
            assert(truthful(ctx@, st.seen, f, fp_fn, csig_fn, alias_fn));
            assert(facts.push(f).drop_last() =~= facts);
            assert(ctx@.run(facts.push(f)) == ctx@.step(st, f));
            assert forall|j: int| 0 <= j <= i implies facts.push(f).take(j) == #[trigger] facts.take(
                j,
            ) by {
                assert(facts.push(f).take(j) =~= facts.take(j));
            }
            assert(facts.take(i as int) =~= facts);
            facts = facts.push(f);
        }
    }
    proof {
        assert(truthful_run(ctx@, text::texts(candidates@), facts, fp_fn, csig_fn, alias_fn));
    }
    Ok(plan)
}

} // verus!
