//! From candidates to cited results: lists of passages are fused by their ranks, reranked by
//! relevance, and cited.
use vstd::prelude::*;
use crate::formats::Format;
use crate::rank;
use crate::rows;
use crate::spell;
use crate::store::{RetrievedChunk, RetrievedV};
use crate::text;

verus! {

/// A passage found for a question.
#[derive(Debug, PartialEq, Eq)]
pub struct SearchResult {
    pub rank: usize,
    /// Relevance, as a number by which results are ordered.
    pub score: i64,
    pub text: String,
    pub citation: String,
    pub title: String,
    pub author: Option<String>,
    pub chapter: Option<String>,
    pub page: Option<u32>,
    pub source_path: String,
    pub book_id: String,
    pub id: String,
}

/// What a [`SearchResult`] holds.
#[verifier::ext_equal]
pub struct ResultV {
    pub rank: nat,
    pub score: i64,
    pub text: Seq<char>,
    pub citation: Seq<char>,
    pub title: Seq<char>,
    pub author: Option<Seq<char>>,
    pub chapter: Option<Seq<char>>,
    pub page: Option<u32>,
    pub source_path: Seq<char>,
    pub book_id: Seq<char>,
    pub id: Seq<char>,
}

impl View for SearchResult {
    type V = ResultV;

    open spec fn view(&self) -> ResultV {
        ResultV {
            rank: self.rank as nat,
            score: self.score,
            text: self.text@,
            citation: self.citation@,
            title: self.title@,
            author: text::opt_text(self.author),
            chapter: text::opt_text(self.chapter),
            page: self.page,
            source_path: self.source_path@,
            book_id: self.book_id@,
            id: self.id@,
        }
    }
}

// ---- citation --------------------------------------------------------------------------------

/// A text that is there and not empty.
pub open spec fn filled(o: Option<Seq<char>>) -> bool {
    o is Some && o->0.len() > 0
}

/// The book of a citation.
pub open spec fn citation_head(c: RetrievedV) -> Seq<char> {
    if filled(c.author) {
        c.title + " — "@ + c.author->0
    } else {
        c.title
    }
}

/// The place of a citation: the chapter, and the page of a PDF; without a chapter, the offset.
pub open spec fn citation_place(c: RetrievedV) -> Seq<Seq<char>> {
    let chapter = if filled(c.chapter) {
        seq!["Ch. "@ + c.chapter->0]
    } else {
        Seq::empty()
    };
    if c.format == Some(Format::Pdf) && c.page is Some {
        chapter.push("p."@ + text::decimal(c.page->0 as nat))
    } else if c.chapter is None {
        chapter.push("~loc "@ + text::signed_decimal(c.loc_start as int))
    } else {
        chapter
    }
}

/// The citation of a passage.
pub open spec fn citation_of(c: RetrievedV) -> Seq<char> {
    let place = citation_place(c);
    if place.len() == 0 {
        citation_head(c)
    } else {
        citation_head(c) + " · "@ + text::join(place, ", "@)
    }
}

fn is_filled(o: &Option<String>) -> (r: bool)
    ensures
        r == filled(text::opt_text(*o)),
{
    match o {
        Some(s) => s.as_str().unicode_len() > 0,
        None => false,
    }
}

/// The citation of a passage, for people. Only PDFs have page numbers; other books are cited by
/// chapter or offset.
pub fn format_citation(c: &RetrievedChunk) -> (r: String)
    ensures
        r@ == citation_of(c@),
{
    let mut head = c.title.clone();
    if let Some(a) = &c.author {
        if is_filled(&c.author) {
            head.append(" — ");
            head.append(a.as_str());
        }
    }
    let mut place: Vec<String> = Vec::new();
    assert(text::texts(place@) =~= Seq::empty());
    if let Some(ch) = &c.chapter {
        if is_filled(&c.chapter) {
            let mut s = "Ch. ".to_owned();
            s.append(ch.as_str());
            proof {
                text::lemma_texts_push(place@, s);
            }
            place.push(s);
            assert(text::texts(place@) =~= seq!["Ch. "@ + ch@]);
        }
    }
    let is_pdf = match c.format {
        Some(Format::Pdf) => true,
        _ => false,
    };
    if is_pdf && c.page.is_some() {
        let mut s = "p.".to_owned();
        s.append(text::decimal_of(c.page.unwrap() as u64).as_str());
        proof {
            text::lemma_texts_push(place@, s);
        }
        place.push(s);
    } else if c.chapter.is_none() {
        let mut s = "~loc ".to_owned();
        s.append(text::signed_decimal_of(c.loc_start).as_str());
        proof {
            text::lemma_texts_push(place@, s);
        }
        place.push(s);
    }
    assert(text::texts(place@) == citation_place(c@));
    assert(text::texts(place@).len() == place@.len());
    if place.len() > 0 {
        head.append(" · ");
        head.append(text::join_strs(&place, ", ").as_str());
    }
    head
}

// ---- fusion ----------------------------------------------------------------------------------

/// The damping constant of reciprocal rank fusion.
pub const RRF_K: u64 = 60;

/// What reciprocal ranks are scaled by.
pub const RRF_SCALE: u128 = 1_000_000_000_000_000_000;

/// What a passage gains by its rank in a list, the first rank being zero.
pub open spec fn gain(rank: nat) -> nat {
    RRF_SCALE as nat / (RRF_K as nat + rank + 1)
}

/// A list's passages with their ranks.
pub open spec fn ranked_list(list: Seq<RetrievedV>) -> Seq<(RetrievedV, nat)> {
    Seq::new(list.len(), |i: int| (list[i], i as nat))
}

/// The passages of all lists with their ranks, one list after the other.
pub open spec fn ranked_lists(lists: Seq<Seq<RetrievedV>>) -> Seq<(RetrievedV, nat)>
    decreases lists.len(),
{
    if lists.len() == 0 {
        Seq::empty()
    } else {
        ranked_lists(lists.drop_last()) + ranked_list(lists.last())
    }
}

/// The passage is the one with the identity.
pub open spec fn with_id(id: Seq<char>) -> spec_fn(RetrievedV) -> bool {
    |c: RetrievedV| c.id == id
}

/// The distinct passages, each as it appears first.
pub open spec fn pool(v: Seq<(RetrievedV, nat)>) -> Seq<RetrievedV>
    decreases v.len(),
{
    if v.len() == 0 {
        Seq::empty()
    } else {
        let before = pool(v.drop_last());
        if rows::first_where(before, with_id(v.last().0.id)) is Some {
            before
        } else {
            before.push(v.last().0)
        }
    }
}

/// What a passage gains in all lists together.
pub open spec fn score_of(v: Seq<(RetrievedV, nat)>, id: Seq<char>) -> nat
    decreases v.len(),
{
    if v.len() == 0 {
        0
    } else {
        score_of(v.drop_last(), id) + (if v.last().0.id == id {
            gain(v.last().1)
        } else {
            0
        })
    }
}

/// A passage and what it is ordered by.
#[derive(Debug)]
pub struct Scored {
    pub chunk: RetrievedChunk,
    pub score: i128,
}

impl View for Scored {
    type V = (RetrievedV, int);

    open spec fn view(&self) -> (RetrievedV, int) {
        (self.chunk@, self.score as int)
    }
}

/// The higher score comes first.
pub open spec fn higher() -> spec_fn((RetrievedV, int), (RetrievedV, int)) -> bool {
    |a: (RetrievedV, int), b: (RetrievedV, int)| a.1 > b.1
}

/// The distinct passages with their scores.
pub open spec fn scored_pool(v: Seq<(RetrievedV, nat)>) -> Seq<(RetrievedV, int)> {
    Seq::new(pool(v).len(), |i: int| (pool(v)[i], score_of(v, pool(v)[i].id) as int))
}

/// The first `k` of a list.
pub open spec fn top<A>(s: Seq<A>, k: nat) -> Seq<A> {
    if s.len() <= k {
        s
    } else {
        s.take(k as int)
    }
}

/// The passages of some scored ones.
pub open spec fn passages_of(v: Seq<(RetrievedV, int)>) -> Seq<RetrievedV> {
    Seq::new(v.len(), |i: int| v[i].0)
}

/// The fusion of ranked lists: the `k` passages with the highest scores.
pub open spec fn fused(lists: Seq<Seq<RetrievedV>>, k: nat) -> Seq<RetrievedV> {
    passages_of(top(rank::sorted(scored_pool(ranked_lists(lists)), higher()), k))
}

/// The lists, by their values.
pub open spec fn list_vals(lists: Seq<Vec<RetrievedChunk>>) -> Seq<Seq<RetrievedV>> {
    Seq::new(lists.len(), |i: int| rows::vals(lists[i]@))
}

proof fn lemma_score_within(v: Seq<(RetrievedV, nat)>, id: Seq<char>)
    ensures
        score_of(v, id) <= v.len() * RRF_SCALE,
    decreases v.len(),
{
    if v.len() > 0 {
        lemma_score_within(v.drop_last(), id);
        lemma_gain(v.last().1);
        assert(v.len() * RRF_SCALE == v.drop_last().len() * RRF_SCALE + RRF_SCALE) by (nonlinear_arith)
            requires
                v.len() == v.drop_last().len() + 1,
        ;
    }
}

proof fn lemma_gain(rank: nat)
    ensures
        gain(rank) <= RRF_SCALE,
{
    let d = RRF_K as nat + rank + 1;
    assert(RRF_SCALE as nat / d <= RRF_SCALE as nat) by (nonlinear_arith)
        requires
            d >= 1,
    ;
}

proof fn lemma_unseen_scores_nothing(v: Seq<(RetrievedV, nat)>, id: Seq<char>)
    requires
        rows::first_where(pool(v), with_id(id)) is None,
    ensures
        score_of(v, id) == 0,
    decreases v.len(),
{
    if v.len() > 0 {
        let before = pool(v.drop_last());
        rows::lemma_first_where(pool(v), with_id(id));
        rows::lemma_first_where(before, with_id(v.last().0.id));
        assert forall|i: int| 0 <= i < before.len() implies !with_id(id)(#[trigger] before[i]) by {
            assert(pool(v)[i] == before[i]);
        }
        rows::lemma_first_where_none(before, with_id(id));
        lemma_unseen_scores_nothing(v.drop_last(), id);
        if v.last().0.id == id {
            if rows::first_where(before, with_id(id)) is None {
                assert(pool(v)[before.len() as int] == v.last().0);
                assert(with_id(id)(pool(v)[before.len() as int]));
            }
        }
    }
}

proof fn lemma_pool_distinct(v: Seq<(RetrievedV, nat)>)
    ensures
        forall|i: int, j: int|
            0 <= i < j < pool(v).len() ==> (#[trigger] pool(v)[i]).id != (#[trigger] pool(v)[j]).id,
    decreases v.len(),
{
    if v.len() > 0 {
        lemma_pool_distinct(v.drop_last());
        rows::lemma_first_where(pool(v.drop_last()), with_id(v.last().0.id));
    }
}

fn find_id(v: &Vec<RetrievedChunk>, id: &str) -> (r: Option<usize>)
    ensures
        match r {
            Some(i) => i < v@.len() && rows::first_where(rows::vals(v@), with_id(id@)) == Some(
                i as int,
            ),
            None => rows::first_where(rows::vals(v@), with_id(id@)) is None,
        },
{
    rows::find_where(
        v,
        |c: &RetrievedChunk| -> (b: bool)
            ensures
                b == with_id(id@)(c@)
            { text::same_text(c.id.as_str(), id) },
        Ghost(with_id(id@)),
    )
}

/// Adds a list to the pool and to the scores.
fn fuse_list(
    list: &Vec<RetrievedChunk>,
    chunks: &mut Vec<RetrievedChunk>,
    scores: &mut Vec<i128>,
    Ghost(seen): Ghost<Seq<(RetrievedV, nat)>>,
)
    requires
        rows::vals(old(chunks)@) == pool(seen),
        old(scores)@.len() == old(chunks)@.len(),
        forall|i: int|
            0 <= i < old(scores)@.len() ==> #[trigger] old(scores)@[i] == score_of(
                seen,
                pool(seen)[i].id,
            ),
        seen.len() + list@.len() <= 0x1_0000_0000_0000_0000,
    ensures
        ({
            let all = seen + ranked_list(rows::vals(list@));
            &&& rows::vals(final(chunks)@) == pool(all)
            &&& final(scores)@.len() == final(chunks)@.len()
            &&& forall|i: int|
                0 <= i < final(scores)@.len() ==> #[trigger] final(scores)@[i] == score_of(
                    all,
                    pool(all)[i].id,
                )
        }),
{
    let ghost rl = ranked_list(rows::vals(list@));
    assert(seen + rl.take(0) =~= seen);
    for r in 0..list.len()
        invariant
            rl == ranked_list(rows::vals(list@)),
            seen.len() + list@.len() <= 0x1_0000_0000_0000_0000,
            rows::vals(chunks@) == pool(seen + rl.take(r as int)),
            scores@.len() == chunks@.len(),
            forall|i: int|
                0 <= i < scores@.len() ==> #[trigger] scores@[i] == score_of(
                    seen + rl.take(r as int),
                    pool(seen + rl.take(r as int))[i].id,
                ),
    {
        let c = &list[r];
        let ghost before = seen + rl.take(r as int);
        let ghost after = seen + rl.take(r + 1);
        let ghost s0 = scores@;
        proof {
            assert(rl[r as int] == (c@, r as nat));
            assert(after.drop_last() =~= before);
            assert(after.last() == (c@, r as nat));
            lemma_gain(r as nat);
            lemma_pool_distinct(before);
            rows::lemma_first_where(pool(before), with_id(c@.id));
        }
        let g: u128 = RRF_SCALE / (RRF_K as u128 + r as u128 + 1);
        match find_id(chunks, c.id.as_str()) {
            Some(i) => {
                proof {
                    lemma_score_within(before, c@.id);
                    assert(pool(before)[i as int].id == c@.id);
                    assert(before.len() * RRF_SCALE <= 0x1_0000_0000_0000_0000 * RRF_SCALE)
                        by (nonlinear_arith)
                        requires
                            before.len() <= 0x1_0000_0000_0000_0000,
                    ;
                }
                let more: i128 = scores[i] + g as i128;
                scores.set(i, more);
                assert forall|k: int| 0 <= k < scores@.len() implies #[trigger] scores@[k]
                    == score_of(after, pool(after)[k].id) by {
                    assert(s0[k] == score_of(before, pool(before)[k].id));
                    if k != i {
                        if k < i {
                            assert(pool(before)[k].id != pool(before)[i as int].id);
                        } else {
                            assert(pool(before)[i as int].id != pool(before)[k].id);
                        }
                    }
                }
            },
            None => {
                let x = c.copy();
                proof {
                    lemma_unseen_scores_nothing(before, c@.id);
                    rows::lemma_vals_push(chunks@, x);
                }
                chunks.push(x);
                scores.push(g as i128);
                assert forall|k: int| 0 <= k < scores@.len() implies #[trigger] scores@[k]
                    == score_of(after, pool(after)[k].id) by {
                    if k < s0.len() {
                        assert(s0[k] == score_of(before, pool(before)[k].id));
                        assert(!with_id(c@.id)(pool(before)[k]));
                    }
                }
            },
        }
    }
    assert(rl.take(rl.len() as int) =~= rl);
}

fn rank_all(chunks: Vec<RetrievedChunk>, scores: &Vec<i128>, Ghost(v): Ghost<Seq<(RetrievedV, int)>>) -> (r:
    Vec<Scored>)
    requires
        chunks@.len() == scores@.len(),
        v.len() == chunks@.len(),
        forall|i: int|
            0 <= i < v.len() ==> #[trigger] v[i] == (chunks@[i]@, scores@[i] as int),
    ensures
        rows::vals(r@) == rank::sorted(v, higher()),
{
    let mut out: Vec<Scored> = Vec::new();
    assert(rows::vals(out@) =~= rank::sorted(v.take(0), higher()));
    for i in 0..chunks.len()
        invariant
            chunks@.len() == scores@.len(),
            v.len() == chunks@.len(),
            forall|i: int|
                0 <= i < v.len() ==> #[trigger] v[i] == (chunks@[i]@, scores@[i] as int),
            rows::vals(out@) == rank::sorted(v.take(i as int), higher()),
    {
        proof {
            assert(v.take(i + 1).drop_last() =~= v.take(i as int));
            assert(v.take(i + 1).last() == v[i as int]);
        }
        let f = |a: &Scored, b: &Scored| -> (r: bool)
            ensures
                r == higher()(a@, b@)
            { a.score > b.score };
        rank::insert_by(
            &mut out,
            Scored { chunk: chunks[i].copy(), score: scores[i] },
            &f,
            Ghost(higher()),
        );
    }
    assert(v.take(v.len() as int) =~= v);
    out
}

/// Fuses ranked lists of candidates by their reciprocal ranks and keeps the best `k`. What scores
/// alike stays in the order in which it was found.
pub fn rrf_fuse(lists: &[Vec<RetrievedChunk>], k: usize) -> (r: Vec<RetrievedChunk>)
    requires
        ranked_lists(list_vals(lists@)).len() <= usize::MAX,
    ensures
        rows::vals(r@) == fused(list_vals(lists@), k as nat),
{
    let ghost all = list_vals(lists@);
    let mut chunks: Vec<RetrievedChunk> = Vec::new();
    let mut scores: Vec<i128> = Vec::new();
    assert(rows::vals(chunks@) =~= pool(ranked_lists(all.take(0))));
    for i in 0..lists.len()
        invariant
            all == list_vals(lists@),
            ranked_lists(all).len() <= usize::MAX,
            rows::vals(chunks@) == pool(ranked_lists(all.take(i as int))),
            scores@.len() == chunks@.len(),
            forall|j: int|
                0 <= j < scores@.len() ==> #[trigger] scores@[j] == score_of(
                    ranked_lists(all.take(i as int)),
                    pool(ranked_lists(all.take(i as int)))[j].id,
                ),
    {
        proof {
            assert(all.take(i + 1).drop_last() =~= all.take(i as int));
            assert(all.take(i + 1).last() == rows::vals(lists@[i as int]@));
            lemma_lists_grow(all, i as int + 1);
        }
        fuse_list(&lists[i], &mut chunks, &mut scores, Ghost(ranked_lists(all.take(i as int))));
    }
    assert(all.take(all.len() as int) =~= all);
    let ghost v = scored_pool(ranked_lists(all));
    assert(rows::vals(chunks@).len() == chunks@.len());
    assert forall|j: int| 0 <= j < v.len() implies #[trigger] v[j] == (
        chunks@[j]@,
        scores@[j] as int,
    ) by {
        assert(rows::vals(chunks@)[j] == chunks@[j]@);
        assert(scores@[j] == score_of(ranked_lists(all), pool(ranked_lists(all))[j].id));
    }
    let ranked = rank_all(chunks, &scores, Ghost(v));
    let ghost s = rank::sorted(v, higher());
    let n: usize = if ranked.len() <= k {
        ranked.len()
    } else {
        k
    };
    assert(s.len() == ranked@.len());
    let mut out: Vec<RetrievedChunk> = Vec::new();
    for i in 0..n
        invariant
            n <= ranked@.len(),
            s == rows::vals(ranked@),
            out@.len() == i,
            forall|j: int| 0 <= j < i ==> (#[trigger] out@[j])@ == s[j].0,
    {
        assert(s[i as int] == ranked@[i as int]@);
        out.push(ranked[i].chunk.copy());
    }
    assert(rows::vals(out@) =~= passages_of(top(s, k as nat)));
    out
}

proof fn lemma_lists_grow(lists: Seq<Seq<RetrievedV>>, i: int)
    requires
        0 <= i <= lists.len(),
    ensures
        ranked_lists(lists.take(i)).len() <= ranked_lists(lists).len(),
    decreases lists.len() - i,
{
    if i < lists.len() {
        lemma_lists_grow(lists, i + 1);
        assert(lists.take(i + 1).drop_last() =~= lists.take(i));
    } else {
        assert(lists.take(i) =~= lists);
    }
}

proof fn lemma_higher_orders()
    ensures
        rank::orders(higher()),
{
}

/// Fused passages come in the order of their scores, and none comes twice.
pub proof fn fusion_orders_by_score(lists: Seq<Seq<RetrievedV>>)
    ensures
        rank::in_order(rank::sorted(scored_pool(ranked_lists(lists)), higher()), higher()),
        rank::sorted(scored_pool(ranked_lists(lists)), higher()).to_multiset() == scored_pool(
            ranked_lists(lists),
        ).to_multiset(),
        forall|i: int, j: int|
            0 <= i < j < pool(ranked_lists(lists)).len() ==> (#[trigger] pool(
                ranked_lists(lists),
            )[i]).id != (#[trigger] pool(ranked_lists(lists))[j]).id,
{
    lemma_higher_orders();
    rank::sorting_puts_in_order(scored_pool(ranked_lists(lists)), higher());
    rank::sorting_keeps_the_elements(scored_pool(ranked_lists(lists)), higher());
    lemma_pool_distinct(ranked_lists(lists));
}

// ---- rerank ----------------------------------------------------------------------------------

/// Candidates with the scores given for them; what has no score is left out.
pub open spec fn judged(candidates: Seq<RetrievedV>, scores: Seq<i64>) -> Seq<(RetrievedV, int)> {
    Seq::new(
        if candidates.len() <= scores.len() {
            candidates.len()
        } else {
            scores.len()
        },
        |i: int| (candidates[i], scores[i] as int),
    )
}

/// A judged passage as a result.
pub open spec fn result_of(c: (RetrievedV, int), rank: nat) -> ResultV {
    ResultV {
        rank,
        score: c.1 as i64,
        text: c.0.text,
        citation: citation_of(c.0),
        title: c.0.title,
        author: c.0.author,
        chapter: c.0.chapter,
        page: c.0.page,
        source_path: c.0.source_path,
        book_id: c.0.book_id,
        id: c.0.id,
    }
}

/// Judged passages as results, numbered from one.
pub open spec fn results_of(v: Seq<(RetrievedV, int)>) -> Seq<ResultV> {
    Seq::new(v.len(), |i: int| result_of(v[i], (i + 1) as nat))
}

/// The best judged candidates as results.
pub open spec fn reranked(candidates: Seq<RetrievedV>, scores: Seq<i64>, k: nat) -> Seq<ResultV> {
    results_of(top(rank::sorted(judged(candidates, scores), higher()), k))
}

/// Orders candidates by the relevance that the reranker gave them, keeps the best `final_k`, numbers
/// them and cites them.
pub fn rerank(candidates: Vec<RetrievedChunk>, scores: &Vec<i64>, final_k: usize) -> (r: Vec<
    SearchResult,
>)
    ensures
        rows::vals(r@) == reranked(rows::vals(candidates@), scores@, final_k as nat),
{
    let ghost v = judged(rows::vals(candidates@), scores@);
    let n: usize = if candidates.len() <= scores.len() {
        candidates.len()
    } else {
        scores.len()
    };
    let mut chunks: Vec<RetrievedChunk> = Vec::new();
    let mut keys: Vec<i128> = Vec::new();
    for i in 0..n
        invariant
            n <= candidates@.len(),
            n <= scores@.len(),
            chunks@.len() == i,
            keys@.len() == i,
            forall|j: int| 0 <= j < i ==> (#[trigger] chunks@[j])@ == candidates@[j]@,
            forall|j: int| 0 <= j < i ==> (#[trigger] keys@[j]) == scores@[j],
    {
        chunks.push(candidates[i].copy());
        keys.push(scores[i] as i128);
    }
    assert forall|j: int| 0 <= j < v.len() implies #[trigger] v[j] == (
        chunks@[j]@,
        keys@[j] as int,
    ) by {
        assert(chunks@[j]@ == candidates@[j]@);
        assert(keys@[j] == scores@[j]);
    }
    let ranked = rank_all(chunks, &keys, Ghost(v));
    let ghost s = rank::sorted(v, higher());
    assert(s.len() == ranked@.len());
    proof {
        lemma_scores_fit(v, scores@);
    }
    let m: usize = if ranked.len() <= final_k {
        ranked.len()
    } else {
        final_k
    };
    let mut out: Vec<SearchResult> = Vec::new();
    for i in 0..m
        invariant
            m <= ranked@.len(),
            s == rows::vals(ranked@),
            forall|j: int|
                0 <= j < s.len() ==> i64::MIN <= (#[trigger] s[j]).1 && s[j].1 <= i64::MAX,
            out@.len() == i,
            forall|j: int|
                0 <= j < i ==> (#[trigger] out@[j])@ == result_of(s[j], (j + 1) as nat),
    {
        let x = &ranked[i];
        assert(s[i as int] == x@);
        let c = &x.chunk;
        out.push(
            SearchResult {
                rank: i + 1,
                score: x.score as i64,
                text: c.text.clone(),
                citation: format_citation(c),
                title: c.title.clone(),
                author: crate::types::copy_opt(&c.author),
                chapter: crate::types::copy_opt(&c.chapter),
                page: c.page,
                source_path: c.source_path.clone(),
                book_id: c.book_id.clone(),
                id: c.id.clone(),
            },
        );
    }
    assert(rows::vals(out@) =~= results_of(top(s, final_k as nat)));
    out
}

proof fn lemma_scores_fit(v: Seq<(RetrievedV, int)>, scores: Seq<i64>)
    requires
        v.len() <= scores.len(),
        forall|i: int| 0 <= i < v.len() ==> (#[trigger] v[i]).1 == scores[i],
    ensures
        forall|j: int|
            0 <= j < rank::sorted(v, higher()).len() ==> i64::MIN <= (#[trigger] rank::sorted(
                v,
                higher(),
            )[j]).1 && rank::sorted(v, higher())[j].1 <= i64::MAX,
{
    let s = rank::sorted(v, higher());
    rank::sorting_keeps_the_elements(v, higher());
    assert forall|j: int| 0 <= j < s.len() implies i64::MIN <= (#[trigger] s[j]).1 && s[j].1
        <= i64::MAX by {
        broadcast use vstd::seq_lib::group_to_multiset_ensures;

        assert(s.contains(s[j]));
        assert(s.to_multiset().count(s[j]) > 0);
        assert(v.contains(s[j]));
        let i = choose|i: int| 0 <= i < v.len() && v[i] == s[j];
        assert(v[i].1 == scores[i]);
    }
}

/// Results come most relevant first and are numbered from one without gaps.
pub proof fn results_come_most_relevant_first(
    candidates: Seq<RetrievedV>,
    scores: Seq<i64>,
    k: nat,
    i: int,
    j: int,
)
    requires
        0 <= i <= j < reranked(candidates, scores, k).len(),
    ensures
        reranked(candidates, scores, k)[i].rank == i + 1,
        reranked(candidates, scores, k)[i].score >= reranked(candidates, scores, k)[j].score,
        reranked(candidates, scores, k).len() <= k,
{
    let v = judged(candidates, scores);
    let s = rank::sorted(v, higher());
    lemma_higher_orders();
    rank::sorting_puts_in_order(v, higher());
    lemma_scores_fit(v, scores);
    let t = top(s, k);
    assert(t[i] == s[i] && t[j] == s[j]);
    if i < j {
        assert(!higher()(s[j], s[i]));
    }
}

// ---- search ----------------------------------------------------------------------------------

/// How many candidates each of several stores contributes: their share, but never too few.
pub fn candidates_per_store(hybrid_k: usize, stores: usize) -> (r: usize)
    requires
        stores > 0,
    ensures
        r == (if hybrid_k as nat / stores as nat > 6 {
            hybrid_k as nat / stores as nat
        } else {
            6
        }),
{
    let share: usize = hybrid_k / stores;
    if share > 6 {
        share
    } else {
        6
    }
}

/// Passages from several stores, each once.
pub open spec fn distinct(v: Seq<RetrievedV>) -> Seq<RetrievedV>
    decreases v.len(),
{
    if v.len() == 0 {
        v
    } else {
        let before = distinct(v.drop_last());
        if rows::first_where(before, with_id(v.last().id)) is Some {
            before
        } else {
            before.push(v.last())
        }
    }
}

/// Keeps each passage once, where it appears first.
pub fn keep_distinct(v: Vec<RetrievedChunk>) -> (r: Vec<RetrievedChunk>)
    ensures
        rows::vals(r@) == distinct(rows::vals(v@)),
{
    let ghost all = rows::vals(v@);
    let mut out: Vec<RetrievedChunk> = Vec::new();
    assert(rows::vals(out@) =~= distinct(all.take(0)));
    for i in 0..v.len()
        invariant
            all == rows::vals(v@),
            rows::vals(out@) == distinct(all.take(i as int)),
    {
        proof {
            assert(all.take(i + 1).drop_last() =~= all.take(i as int));
            assert(all.take(i + 1).last() == v@[i as int]@);
        }
        if find_id(&out, v[i].id.as_str()).is_none() {
            let x = v[i].copy();
            proof {
                rows::lemma_vals_push(out@, x);
            }
            out.push(x);
        }
    }
    assert(all.take(all.len() as int) =~= all);
    out
}

/// The query to search again with, where the passages found reveal a misspelling.
pub fn second_query(query: &str, found: &[RetrievedChunk]) -> (r: Option<String>)
    ensures
        text::opt_text(r) == (if spell::corrected(query@, rows::vals(found@)) != query@ {
            Some(spell::corrected(query@, rows::vals(found@)))
        } else {
            None
        }),
{
    let c = spell::correct_query(query, found);
    if text::same_text(c.as_str(), query) {
        None
    } else {
        Some(c)
    }
}

} // verus!
