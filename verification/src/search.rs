//! Search: two rankings fused into one, the best chunk of each file, and the tree of what is
//! relevant below a folder. A score stands for a relevance by its rank among all: a larger
//! number is a better match.

use vstd::prelude::*;

use crate::order::{all_below, as_ints, lemma_sorted_items, picked, sort_places, sorted_by, Ranked};
use crate::text::{
    first_chars, is_blank, opt, str_eq, str_first_chars, str_is_blank, str_trim, trim, views,
};

verus! {

// ---------------------------------------------------------------------------
// The question
// ---------------------------------------------------------------------------

/// What is looked for; a blank question has no answer, and nothing is looked for.
pub fn search_query(query: &str) -> (r: Option<String>)
    ensures
        opt(r) == (if is_blank(query@) {
            None
        } else {
            Some(trim(query@))
        }),
{
    if str_is_blank(query) {
        None
    } else {
        Some(str_trim(query))
    }
}

// ---------------------------------------------------------------------------
// Limits
// ---------------------------------------------------------------------------

pub open spec fn clamped(n: int, low: int, high: int) -> int {
    if n < low {
        low
    } else if n > high {
        high
    } else {
        n
    }
}

/// How much is looked at.
#[derive(Debug, PartialEq, Eq, Structural)]
pub struct SearchLimits {
    /// How many files are shown.
    pub limit: usize,
    /// How many chunks are retrieved.
    pub pool: usize,
    /// How many of them are ranked anew.
    pub rerank_pool: usize,
}

fn clamp_to(n: usize, low: usize, high: usize) -> (r: usize)
    requires
        low <= high,
    ensures
        r == clamped(n as int, low as int, high as int),
{
    if n < low {
        low
    } else if n > high {
        high
    } else {
        n
    }
}

pub fn search_limits(limit: Option<usize>) -> (r: SearchLimits)
    ensures
        r.limit == (match limit {
            Some(n) => clamped(n as int, 1, 100),
            None => 20,
        }),
        r.pool == clamped(r.limit * 6, 30, 160),
        r.rerank_pool == clamped(r.limit * 3, 20, 100),
{
    let n = match limit {
        Some(n) => clamp_to(n, 1, 100),
        None => 20,
    };
    SearchLimits {
        limit: n,
        pool: clamp_to(n * 6, 30, 160),
        rerank_pool: clamp_to(n * 3, 20, 100),
    }
}

// ---------------------------------------------------------------------------
// Fusion
// ---------------------------------------------------------------------------

/// A chunk that one of the two rankings found.
#[derive(Debug)]
pub struct Hit {
    pub path: String,
    pub chunk_index: i32,
    pub score: u32,
    pub text: String,
    pub snippet: String,
}

pub struct HitView {
    pub path: Seq<char>,
    pub chunk_index: int,
    pub score: u32,
    pub text: Seq<char>,
    pub snippet: Seq<char>,
}

impl Hit {
    pub open spec fn view(self) -> HitView {
        HitView {
            path: self.path@,
            chunk_index: self.chunk_index as int,
            score: self.score,
            text: self.text@,
            snippet: self.snippet@,
        }
    }
}

pub open spec fn hit_views(v: Seq<Hit>) -> Seq<HitView> {
    Seq::new(v.len(), |i: int| v[i].view())
}

/// A chunk with what it scored.
#[derive(Debug)]
pub struct Candidate {
    pub path: String,
    pub chunk_index: i32,
    pub text: String,
    pub snippet: String,
    /// How near its vector is, where the vectors found it.
    pub dense: Option<u32>,
    /// What it is ranked by.
    pub rank: u128,
}

pub struct CandidateView {
    pub path: Seq<char>,
    pub chunk_index: int,
    pub text: Seq<char>,
    pub snippet: Seq<char>,
    pub dense: Option<u32>,
    pub rank: int,
}

impl Candidate {
    pub open spec fn view(self) -> CandidateView {
        CandidateView {
            path: self.path@,
            chunk_index: self.chunk_index as int,
            text: self.text@,
            snippet: self.snippet@,
            dense: self.dense,
            rank: self.rank as int,
        }
    }
}

pub open spec fn candidate_views(v: Seq<Candidate>) -> Seq<CandidateView> {
    Seq::new(v.len(), |i: int| v[i].view())
}

/// The unit in which contributions are counted.
pub const FUSION_SCALE: u128 = 1000000000000000000;

/// What a place in a ranking contributes: the reciprocal of 60 plus the place, counted from
/// one, whatever the scale of the scores is.
pub open spec fn contribution(place: int) -> int {
    FUSION_SCALE as int / (61 + place)
}

pub open spec fn candidate_place(c: Seq<CandidateView>, path: Seq<char>, chunk_index: int) -> Option<
    int,
>
    decreases c.len(),
{
    if c.len() == 0 {
        None
    } else if c.last().path == path && c.last().chunk_index == chunk_index {
        Some(c.len() - 1)
    } else {
        candidate_place(c.drop_last(), path, chunk_index)
    }
}

/// The candidates once a hit at some place of a ranking is counted in.
pub open spec fn with_hit(c: Seq<CandidateView>, h: HitView, place: int, by_vector: bool) -> Seq<
    CandidateView,
> {
    match candidate_place(c, h.path, h.chunk_index) {
        Some(k) => c.update(
            k,
            CandidateView {
                rank: c[k].rank + contribution(place),
                dense: if by_vector {
                    Some(h.score)
                } else {
                    c[k].dense
                },
                ..c[k]
            },
        ),
        None => c.push(
            CandidateView {
                path: h.path,
                chunk_index: h.chunk_index,
                text: h.text,
                snippet: h.snippet,
                dense: if by_vector {
                    Some(h.score)
                } else {
                    None
                },
                rank: contribution(place),
            },
        ),
    }
}

/// The candidates once the hits of a ranking are counted in.
pub open spec fn with_ranking(c: Seq<CandidateView>, hits: Seq<HitView>, by_vector: bool) -> Seq<
    CandidateView,
>
    decreases hits.len(),
{
    if hits.len() == 0 {
        c
    } else {
        with_hit(
            with_ranking(c, hits.drop_last(), by_vector),
            hits.last(),
            hits.len() - 1,
            by_vector,
        )
    }
}

pub open spec fn ranks_above(a: CandidateView, b: CandidateView) -> bool {
    a.rank > b.rank
}

/// The candidates by what they scored; of those that scored the same, the one that was found
/// first comes first.
pub open spec fn fused(dense: Seq<HitView>, sparse: Seq<HitView>) -> Seq<CandidateView> {
    sorted_by(
        with_ranking(with_ranking(Seq::empty(), dense, true), sparse, false),
        |a: CandidateView, b: CandidateView| ranks_above(a, b),
    )
}

/// Candidates of the vectors alone, in their order.
pub open spec fn dense_only(dense: Seq<HitView>) -> Seq<CandidateView> {
    Seq::new(
        dense.len(),
        |i: int|
            CandidateView {
                path: dense[i].path,
                chunk_index: dense[i].chunk_index,
                text: dense[i].text,
                snippet: dense[i].snippet,
                dense: Some(dense[i].score),
                rank: dense[i].score as int,
            },
    )
}

proof fn lemma_candidate_place(c: Seq<CandidateView>, path: Seq<char>, chunk_index: int)
    ensures
        candidate_place(c, path, chunk_index) matches Some(k) ==> 0 <= k < c.len() && c[k].path
            == path && c[k].chunk_index == chunk_index,
        candidate_place(c, path, chunk_index) is None ==> forall|k: int|
            0 <= k < c.len() ==> !((#[trigger] c[k]).path == path && c[k].chunk_index
                == chunk_index),
    decreases c.len(),
{
    if c.len() > 0 {
        lemma_candidate_place(c.drop_last(), path, chunk_index);
        if candidate_place(c, path, chunk_index) is None {
            assert forall|k: int| 0 <= k < c.len() implies !((#[trigger] c[k]).path == path
                && c[k].chunk_index == chunk_index) by {
                if k < c.len() - 1 {
                    assert(c.drop_last()[k] == c[k]);
                }
            }
        }
    }
}

fn find_candidate(c: &Vec<Candidate>, path: &str, chunk_index: i32) -> (r: Option<usize>)
    ensures
        match r {
            Some(k) => k < c@.len() && candidate_place(
                candidate_views(c@),
                path@,
                chunk_index as int,
            ) == Some(k as int),
            None => candidate_place(candidate_views(c@), path@, chunk_index as int) is None,
        },
{
    let ghost all = candidate_views(c@);
    let mut i: usize = c.len();
    assert(all.take(i as int) =~= all);
    while i > 0
        invariant
            i <= c.len(),
            all == candidate_views(c@),
            candidate_place(all, path@, chunk_index as int) == candidate_place(
                all.take(i as int),
                path@,
                chunk_index as int,
            ),
        decreases i,
    {
        assert(all.take(i as int).drop_last() =~= all.take(i - 1));
        assert(all.take(i as int).last() == all[i - 1]);
        if c[i - 1].chunk_index == chunk_index && str_eq(c[i - 1].path.as_str(), path) {
            return Some(i - 1);
        }
        i = i - 1;
    }
    None
}

pub open spec fn ranks_within(c: Seq<Candidate>, n: int) -> bool {
    forall|k: int| 0 <= k < c.len() ==> (#[trigger] c[k]).rank <= n * FUSION_SCALE
}

fn count_in(c: &mut Vec<Candidate>, hits: &Vec<Hit>, by_vector: bool, Ghost(counted): Ghost<int>)
    requires
        0 <= counted <= u64::MAX,
        ranks_within(old(c)@, counted),
    ensures
        candidate_views(final(c)@) == with_ranking(
            candidate_views(old(c)@),
            hit_views(hits@),
            by_vector,
        ),
        ranks_within(final(c)@, counted + hits@.len()),
{
    let ghost start = candidate_views(c@);
    let ghost all = hit_views(hits@);
    let n: usize = hits.len();
    let mut i: usize = 0;
    assert(all.take(0) =~= Seq::<HitView>::empty());
    while i < n
        invariant
            i <= n,
            n == hits@.len(),
            0 <= counted <= u64::MAX,
            all == hit_views(hits@),
            ranks_within(c@, counted + i),
            candidate_views(c@) == with_ranking(start, all.take(i as int), by_vector),
        decreases n - i,
    {
        assert(all.take(i + 1).drop_last() =~= all.take(i as int));
        assert(all.take(i + 1).last() == hits@[i as int].view());
        let h = &hits[i];
        let add: u128 = FUSION_SCALE / (61 + i as u128);
        assert(add <= FUSION_SCALE) by (nonlinear_arith)
            requires
                add == FUSION_SCALE / ((61 + i) as u128),
        ;
        let ghost before = candidate_views(c@);
        match find_candidate(c, h.path.as_str(), h.chunk_index) {
            Some(k) => {
                assert(c@[k as int].rank <= (counted + i) * FUSION_SCALE);
                let old_c = &c[k];
                let new_c = Candidate {
                    path: old_c.path.clone(),
                    chunk_index: old_c.chunk_index,
                    text: old_c.text.clone(),
                    snippet: old_c.snippet.clone(),
                    dense: if by_vector {
                        Some(h.score)
                    } else {
                        old_c.dense
                    },
                    rank: old_c.rank + add,
                };
                let ghost nv = new_c.view();
                c.set(k, new_c);
                assert(candidate_views(c@) =~= before.update(k as int, nv));
            },
            None => {
                let new_c = Candidate {
                    path: h.path.clone(),
                    chunk_index: h.chunk_index,
                    text: h.text.clone(),
                    snippet: h.snippet.clone(),
                    dense: if by_vector {
                        Some(h.score)
                    } else {
                        None
                    },
                    rank: add,
                };
                let ghost nv = new_c.view();
                c.push(new_c);
                assert(candidate_views(c@) =~= before.push(nv));
            },
        }
        i = i + 1;
    }
    assert(all.take(i as int) =~= all);
}

struct RankedCandidates<'a> {
    list: &'a Vec<Candidate>,
}

impl<'a> Ranked for RankedCandidates<'a> {
    closed spec fn count(&self) -> nat {
        self.list@.len()
    }

    closed spec fn comes_before(&self, a: int, b: int) -> bool {
        ranks_above(candidate_views(self.list@)[a], candidate_views(self.list@)[b])
    }

    fn is_before(&self, a: usize, b: usize) -> (r: bool) {
        self.list[a].rank > self.list[b].rank
    }
}

fn copy_candidate(c: &Candidate) -> (r: Candidate)
    ensures
        r.view() == c.view(),
{
    Candidate {
        path: c.path.clone(),
        chunk_index: c.chunk_index,
        text: c.text.clone(),
        snippet: c.snippet.clone(),
        dense: c.dense,
        rank: c.rank,
    }
}

fn sort_candidates(c: &Vec<Candidate>) -> (r: Vec<Candidate>)
    ensures
        candidate_views(r@) == sorted_by(
            candidate_views(c@),
            |a: CandidateView, b: CandidateView| ranks_above(a, b),
        ),
{
    let n: usize = c.len();
    let ghost all = candidate_views(c@);
    let ghost above = |a: CandidateView, b: CandidateView| ranks_above(a, b);
    let list = RankedCandidates { list: c };
    let order = sort_places(&list, n);
    proof {
        lemma_sorted_items(&list, all, above);
    }
    let ghost want = picked(all, as_ints(order@));
    let mut out: Vec<Candidate> = Vec::new();
    let mut i: usize = 0;
    while i < n
        invariant
            i <= n,
            n == c@.len(),
            order@.len() == n,
            all == candidate_views(c@),
            all_below(as_ints(order@), n as nat),
            want == picked(all, as_ints(order@)),
            candidate_views(out@) == want.take(i as int),
        decreases n - i,
    {
        assert(0 <= as_ints(order@)[i as int] < n);
        let ghost before = candidate_views(out@);
        out.push(copy_candidate(&c[order[i]]));
        assert(candidate_views(out@) =~= before.push(want[i as int]));
        i = i + 1;
        assert(candidate_views(out@) =~= want.take(i as int));
    }
    assert(want.take(i as int) =~= want);
    out
}

/// The candidates for a question: those of the vectors alone, or those of both rankings.
pub fn retrieve_candidates(dense: &Vec<Hit>, sparse: &Vec<Hit>, hybrid: bool) -> (r: Vec<Candidate>)
    ensures
        candidate_views(r@) == candidates(hit_views(dense@), hit_views(sparse@), hybrid),
{
    if hybrid {
        let mut c: Vec<Candidate> = Vec::new();
        assert(candidate_views(c@) =~= Seq::<CandidateView>::empty());
        count_in(&mut c, dense, true, Ghost(0));
        let n: usize = dense.len();
        count_in(&mut c, sparse, false, Ghost(n as int));
        return sort_candidates(&c);
    }
    let ghost want = dense_only(hit_views(dense@));
    let mut out: Vec<Candidate> = Vec::new();
    let mut i: usize = 0;
    while i < dense.len()
        invariant
            i <= dense.len(),
            want == dense_only(hit_views(dense@)),
            candidate_views(out@) == want.take(i as int),
        decreases dense.len() - i,
    {
        let ghost before = candidate_views(out@);
        let h = &dense[i];
        out.push(
            Candidate {
                path: h.path.clone(),
                chunk_index: h.chunk_index,
                text: h.text.clone(),
                snippet: h.snippet.clone(),
                dense: Some(h.score),
                rank: h.score as u128,
            },
        );
        assert(candidate_views(out@) =~= before.push(want[i as int]));
        i = i + 1;
        assert(candidate_views(out@) =~= want.take(i as int));
    }
    assert(want.take(i as int) =~= want);
    out
}

pub open spec fn no_chunk_twice(c: Seq<CandidateView>) -> bool {
    forall|i: int, j: int|
        0 <= i < j < c.len() ==> !((#[trigger] c[i]).path == (#[trigger] c[j]).path
            && c[i].chunk_index == c[j].chunk_index)
}

/// However the rankings overlap, each chunk is one candidate.
pub proof fn law_a_chunk_is_one_candidate(
    c: Seq<CandidateView>,
    hits: Seq<HitView>,
    by_vector: bool,
)
    requires
        no_chunk_twice(c),
    ensures
        no_chunk_twice(with_ranking(c, hits, by_vector)),
    decreases hits.len(),
{
    if hits.len() > 0 {
        law_a_chunk_is_one_candidate(c, hits.drop_last(), by_vector);
        let before = with_ranking(c, hits.drop_last(), by_vector);
        lemma_candidate_place(before, hits.last().path, hits.last().chunk_index);
    }
}

/// A chunk that both rankings found scores more than one that only one of them found at the
/// same place or below.
pub proof fn law_two_rankings_weigh_more(place: int, other: int, worse: int)
    requires
        0 <= place <= worse,
        0 <= other < 1000000,
    ensures
        contribution(place) + contribution(other) > contribution(worse),
{
    assert(FUSION_SCALE as int / (61 + other) > 0) by (nonlinear_arith)
        requires
            0 <= other < 1000000,
            FUSION_SCALE == 1000000000000000000u128,
    ;
    vstd::arithmetic::div_mod::lemma_div_is_ordered_by_denominator(
        FUSION_SCALE as int,
        61 + place,
        61 + worse,
    );
}

// ---------------------------------------------------------------------------
// Ranking anew
// ---------------------------------------------------------------------------

/// How many characters of a chunk the reranker reads.
pub const RERANK_CHARS: usize = 800;

/// The chunks that are ranked anew.
pub fn rerank_documents(c: &Vec<Candidate>, rerank_pool: usize) -> (r: Vec<String>)
    ensures
        views(r@) == Seq::new(
            if c@.len() < rerank_pool {
                c@.len()
            } else {
                rerank_pool as nat
            },
            |i: int| first_chars(c@[i].text@, RERANK_CHARS as nat),
        ),
{
    let mut out: Vec<String> = Vec::new();
    let mut i: usize = 0;
    while i < c.len() && i < rerank_pool
        invariant
            i <= c.len(),
            i <= rerank_pool,
            views(out@) == Seq::new(
                i as nat,
                |k: int| first_chars(c@[k].text@, RERANK_CHARS as nat),
            ),
        decreases c.len() - i,
    {
        let ghost before = views(out@);
        out.push(str_first_chars(c[i].text.as_str(), RERANK_CHARS));
        assert(views(out@) =~= before.push(first_chars(c@[i as int].text@, RERANK_CHARS as nat)));
        i = i + 1;
        assert(views(out@) =~= Seq::new(
            i as nat,
            |k: int| first_chars(c@[k].text@, RERANK_CHARS as nat),
        ));
    }
    out
}

/// The keys of `n` chunks by what the reranker said of some of them: the last word counts,
/// and what it left out comes last.
pub open spec fn keys_of(said: Seq<(usize, i64)>, n: nat) -> Seq<i64>
    decreases said.len(),
{
    if said.len() == 0 {
        Seq::new(n, |i: int| i64::MIN)
    } else {
        let so_far = keys_of(said.drop_last(), n);
        if said.last().0 < n {
            so_far.update(said.last().0 as int, said.last().1)
        } else {
            so_far
        }
    }
}

/// The keys of the chunks that were ranked anew.
pub fn rerank_keys(said: &Vec<(usize, i64)>, n: usize) -> (r: Vec<i64>)
    ensures
        r@ == keys_of(said@, n as nat),
        r@.len() == n,
{
    let mut out: Vec<i64> = Vec::new();
    let mut i: usize = 0;
    while i < n
        invariant
            i <= n,
            out@ == Seq::new(i as nat, |k: int| i64::MIN),
        decreases n - i,
    {
        out.push(i64::MIN);
        i = i + 1;
        assert(out@ =~= Seq::new(i as nat, |k: int| i64::MIN));
    }
    let mut j: usize = 0;
    assert(said@.take(0) =~= Seq::<(usize, i64)>::empty());
    while j < said.len()
        invariant
            j <= said.len(),
            out@.len() == n,
            out@ == keys_of(said@.take(j as int), n as nat),
        decreases said.len() - j,
    {
        assert(said@.take(j + 1).drop_last() =~= said@.take(j as int));
        assert(said@.take(j + 1).last() == said@[j as int]);
        let (k, key) = said[j];
        if k < n {
            out.set(k, key);
        }
        j = j + 1;
    }
    assert(said@.take(j as int) =~= said@);
    out
}

/// A chunk with the key by which it is finally ordered, and its place among the candidates.
pub struct Keyed {
    pub place: int,
    pub key: int,
}

pub open spec fn keyed(c: Seq<CandidateView>, keys: Option<Seq<i64>>) -> Seq<Keyed> {
    match keys {
        Some(k) => Seq::new(
            if k.len() < c.len() {
                k.len()
            } else {
                c.len()
            },
            |i: int| Keyed { place: i, key: k[i] as int },
        ),
        None => Seq::new(c.len(), |i: int| Keyed { place: i, key: c[i].rank }),
    }
}

pub open spec fn keyed_above(a: Keyed, b: Keyed) -> bool {
    a.key > b.key
}

/// The candidates in their final order, by their places. With keys of the reranker only the
/// chunks that have one are looked at.
pub open spec fn final_order(c: Seq<CandidateView>, keys: Option<Seq<i64>>) -> Seq<Keyed> {
    sorted_by(keyed(c, keys), |a: Keyed, b: Keyed| keyed_above(a, b))
}

struct KeyedPlaces {
    by_reranker: bool,
    keys: Vec<i64>,
    ranks: Vec<u128>,
}

impl Ranked for KeyedPlaces {
    closed spec fn count(&self) -> nat {
        if self.by_reranker {
            self.keys@.len()
        } else {
            self.ranks@.len()
        }
    }

    closed spec fn comes_before(&self, a: int, b: int) -> bool {
        if self.by_reranker {
            self.keys@[a] > self.keys@[b]
        } else {
            self.ranks@[a] > self.ranks@[b]
        }
    }

    fn is_before(&self, a: usize, b: usize) -> (r: bool) {
        if self.by_reranker {
            self.keys[a] > self.keys[b]
        } else {
            self.ranks[a] > self.ranks[b]
        }
    }
}

pub open spec fn opt_keys(keys: Option<Vec<i64>>) -> Option<Seq<i64>> {
    match keys {
        Some(k) => Some(k@),
        None => None,
    }
}

pub open spec fn final_places(c: Seq<CandidateView>, keys: Option<Seq<i64>>) -> Seq<int> {
    Seq::new(final_order(c, keys).len(), |i: int| final_order(c, keys)[i].place)
}

fn order_candidates(c: &Vec<Candidate>, keys: &Option<Vec<i64>>) -> (r: Vec<usize>)
    ensures
        as_ints(r@) == final_places(candidate_views(c@), opt_keys(*keys)),
        all_below(as_ints(r@), c@.len()),
{
    let mut ks: Vec<i64> = Vec::new();
    let mut ranks: Vec<u128> = Vec::new();
    let ghost views_ = candidate_views(c@);
    let by_reranker = match keys {
        Some(k) => {
            let mut i: usize = 0;
            while i < k.len() && i < c.len()
                invariant
                    i <= k.len(),
                    i <= c.len(),
                    ks@ == k@.take(i as int),
                decreases k.len() - i,
            {
                ks.push(k[i]);
                i = i + 1;
                assert(ks@ =~= k@.take(i as int));
            }
            true
        },
        None => {
            let mut i: usize = 0;
            while i < c.len()
                invariant
                    i <= c.len(),
                    ranks@ == Seq::new(i as nat, |k: int| c@[k].rank),
                decreases c.len() - i,
            {
                ranks.push(c[i].rank);
                i = i + 1;
                assert(ranks@ =~= Seq::new(i as nat, |k: int| c@[k].rank));
            }
            false
        },
    };
    let n: usize = if by_reranker {
        ks.len()
    } else {
        ranks.len()
    };
    let list = KeyedPlaces { by_reranker, keys: ks, ranks };
    let order = sort_places(&list, n);
    let ghost items = keyed(views_, opt_keys(*keys));
    proof {
        let above = |a: Keyed, b: Keyed| keyed_above(a, b);
        assert(items.len() == n);
        lemma_sorted_items(&list, items, above);
        let want = final_order(views_, opt_keys(*keys));
        assert(want =~= picked(items, as_ints(order@)));
        assert(as_ints(order@) =~= final_places(views_, opt_keys(*keys))) by {
            assert forall|i: int| 0 <= i < order@.len() implies as_ints(order@)[i]
                == want[i].place by {
                assert(0 <= as_ints(order@)[i] < n);
            }
        }
    }
    order
}

// ---------------------------------------------------------------------------
// Results
// ---------------------------------------------------------------------------

/// A file that was found.
#[derive(Debug)]
pub struct SearchResult {
    pub path: String,
    pub snippet: String,
    /// Its chunk's place among the candidates.
    pub place: usize,
}

pub struct ResultView {
    pub path: Seq<char>,
    pub snippet: Seq<char>,
    pub place: int,
}

pub open spec fn result_views(v: Seq<SearchResult>) -> Seq<ResultView> {
    Seq::new(
        v.len(),
        |i: int|
            ResultView { path: v[i].path@, snippet: v[i].snippet@, place: v[i].place as int },
    )
}

/// The path stands at one of the first `n` places.
pub open spec fn seen_before(c: Seq<CandidateView>, at: Seq<int>, n: int, path: Seq<char>) -> bool {
    exists|k: int| 0 <= k < n && c[#[trigger] at[k]].path == path
}

/// The files at the first `n` places: each once, by its best chunk, those that are still
/// there, `limit` at most.
pub open spec fn results_of(
    c: Seq<CandidateView>,
    at: Seq<int>,
    exists_: spec_fn(Seq<char>) -> bool,
    limit: nat,
    n: nat,
) -> Seq<ResultView>
    decreases n,
{
    if n == 0 {
        Seq::empty()
    } else {
        let so_far = results_of(c, at, exists_, limit, (n - 1) as nat);
        let p = at[n - 1];
        if so_far.len() < limit && !seen_before(c, at, n - 1, c[p].path) && exists_(c[p].path) {
            so_far.push(ResultView { path: c[p].path, snippet: c[p].snippet, place: p })
        } else {
            so_far
        }
    }
}

/// The paths that are known to be there.
pub open spec fn among(paths: Seq<String>) -> spec_fn(Seq<char>) -> bool {
    |p: Seq<char>| crate::text::one_of(p, paths)
}

fn was_seen(c: &Vec<Candidate>, order: &Vec<usize>, n: usize, path: &str) -> (r: bool)
    requires
        n <= order@.len(),
        all_below(as_ints(order@), c@.len()),
    ensures
        r == seen_before(candidate_views(c@), as_ints(order@), n as int, path@),
{
    let mut i: usize = 0;
    while i < n
        invariant
            i <= n,
            n <= order@.len(),
            all_below(as_ints(order@), c@.len()),
            forall|k: int|
                0 <= k < i ==> candidate_views(c@)[#[trigger] as_ints(order@)[k]].path != path@,
        decreases n - i,
    {
        assert(0 <= as_ints(order@)[i as int] < c@.len());
        if str_eq(c[order[i]].path.as_str(), path) {
            assert(candidate_views(c@)[as_ints(order@)[i as int]].path == path@);
            return true;
        }
        i = i + 1;
    }
    false
}

/// The files that are shown for a question. `existing` are the paths of candidates that are
/// still on the disk, `keys` those of the reranker, where it was asked.
pub fn semantic_search(
    c: &Vec<Candidate>,
    keys: &Option<Vec<i64>>,
    existing: &Vec<String>,
    limit: usize,
) -> (r: Vec<SearchResult>)
    ensures
        result_views(r@) == shown_files(
            candidate_views(c@),
            opt_keys(*keys),
            among(existing@),
            limit as nat,
        ),
{
    let order = order_candidates(c, keys);
    let ghost cv = candidate_views(c@);
    let ghost at = as_ints(order@);
    let n: usize = order.len();
    let mut out: Vec<SearchResult> = Vec::new();
    let mut i: usize = 0;
    assert(result_views(out@) =~= Seq::<ResultView>::empty());
    while i < n
        invariant
            i <= n,
            n == order@.len(),
            cv == candidate_views(c@),
            at == as_ints(order@),
            all_below(at, c@.len()),
            result_views(out@) == results_of(cv, at, among(existing@), limit as nat, i as nat),
        decreases n - i,
    {
        assert(0 <= at[i as int] < c@.len());
        let k = order[i];
        let path = c[k].path.as_str();
        assert(result_views(out@).len() == out@.len());
        if out.len() < limit && !was_seen(c, &order, i, path) && crate::text::is_one_of(
            path,
            existing,
        ) {
            let ghost before = result_views(out@);
            out.push(
                SearchResult {
                    path: c[k].path.clone(),
                    snippet: c[k].snippet.clone(),
                    place: k,
                },
            );
            assert(result_views(out@) =~= before.push(
                ResultView { path: cv[k as int].path, snippet: cv[k as int].snippet, place: k as int },
            ));
        }
        i = i + 1;
    }
    out
}

pub open spec fn no_file_twice(r: Seq<ResultView>) -> bool {
    forall|i: int, j: int| 0 <= i < j < r.len() ==> (#[trigger] r[i]).path != (#[trigger] r[j]).path
}

proof fn lemma_results(
    c: Seq<CandidateView>,
    at: Seq<int>,
    exists_: spec_fn(Seq<char>) -> bool,
    limit: nat,
    n: nat,
)
    requires
        n <= at.len(),
    ensures
        results_of(c, at, exists_, limit, n).len() <= limit,
        no_file_twice(results_of(c, at, exists_, limit, n)),
        forall|i: int|
            0 <= i < results_of(c, at, exists_, limit, n).len() ==> {
                let r = #[trigger] results_of(c, at, exists_, limit, n)[i];
                exists_(r.path) && seen_before(c, at, n as int, r.path)
            },
    decreases n,
{
    if n > 0 {
        lemma_results(c, at, exists_, limit, (n - 1) as nat);
        let before = results_of(c, at, exists_, limit, (n - 1) as nat);
        let after = results_of(c, at, exists_, limit, n);
        assert forall|i: int| 0 <= i < after.len() implies {
            let r = #[trigger] after[i];
            exists_(r.path) && seen_before(c, at, n as int, r.path)
        } by {
            if i < before.len() {
                assert(after[i] == before[i]);
                let k = choose|k: int| 0 <= k < n - 1 && c[#[trigger] at[k]].path == before[i].path;
                assert(c[at[k]].path == after[i].path);
            } else {
                assert(c[at[n - 1]].path == after[i].path);
            }
        }
        assert forall|i: int, j: int| 0 <= i < j < after.len() implies (#[trigger] after[i]).path
            != (#[trigger] after[j]).path by {
            if j < before.len() {
                assert(after[i] == before[i] && after[j] == before[j]);
            } else {
                assert(after[i] == before[i]);
                assert(seen_before(c, at, n - 1, before[i].path));
            }
        }
    }
}

/// A search shows each file once, at most `limit` of them, and only files that are still
/// there.
pub proof fn law_results_are_distinct_existing_files(
    c: Seq<CandidateView>,
    at: Seq<int>,
    exists_: spec_fn(Seq<char>) -> bool,
    limit: nat,
)
    ensures
        results_of(c, at, exists_, limit, at.len()).len() <= limit,
        no_file_twice(results_of(c, at, exists_, limit, at.len())),
        forall|i: int|
            0 <= i < results_of(c, at, exists_, limit, at.len()).len() ==> exists_(
                (#[trigger] results_of(c, at, exists_, limit, at.len())[i]).path,
            ),
{
    lemma_results(c, at, exists_, limit, at.len());
}

// ---------------------------------------------------------------------------
// What a search is for
// ---------------------------------------------------------------------------

/// A hit is of a chunk.
pub open spec fn is_of(h: HitView, path: Seq<char>, chunk_index: int) -> bool {
    h.path == path && h.chunk_index == chunk_index
}

/// A candidate shows what a hit of its chunk does.
pub open spec fn is_shown_by(c: CandidateView, h: HitView) -> bool {
    is_of(h, c.path, c.chunk_index) && c.text == h.text && c.snippet == h.snippet
}

/// What a ranking gives to a chunk: the sum, over the places at which it stands, of the
/// reciprocal of 61 plus the place, counted from zero.
pub open spec fn weight(hits: Seq<HitView>, path: Seq<char>, chunk_index: int) -> int
    decreases hits.len(),
{
    if hits.len() == 0 {
        0
    } else {
        weight(hits.drop_last(), path, chunk_index) + if is_of(hits.last(), path, chunk_index) {
            (1000000000000000000int / (60 + hits.len() as int))
        } else {
            0
        }
    }
}

/// The chunk stands in a ranking.
pub open spec fn is_hit(hits: Seq<HitView>, path: Seq<char>, chunk_index: int) -> bool {
    exists|i: int| 0 <= i < hits.len() && is_of(#[trigger] hits[i], path, chunk_index)
}

/// What the last hit of a chunk scored.
pub open spec fn last_score(hits: Seq<HitView>, path: Seq<char>, chunk_index: int) -> Option<u32>
    decreases hits.len(),
{
    if hits.len() == 0 {
        None
    } else if is_of(hits.last(), path, chunk_index) {
        Some(hits.last().score)
    } else {
        last_score(hits.drop_last(), path, chunk_index)
    }
}

/// A ranking names no chunk twice.
pub open spec fn no_hit_twice(hits: Seq<HitView>) -> bool {
    forall|i: int, j: int|
        0 <= i < j < hits.len() ==> !((#[trigger] hits[i]).path == (#[trigger] hits[j]).path
            && hits[i].chunk_index == hits[j].chunk_index)
}

proof fn lemma_is_hit_step(hits: Seq<HitView>, path: Seq<char>, chunk_index: int)
    requires
        hits.len() > 0,
    ensures
        is_hit(hits, path, chunk_index) == (is_hit(hits.drop_last(), path, chunk_index) || is_of(
            hits.last(),
            path,
            chunk_index,
        )),
{
    let less = hits.drop_last();
    if is_hit(less, path, chunk_index) {
        let i = choose|i: int| 0 <= i < less.len() && is_of(#[trigger] less[i], path, chunk_index);
        assert(is_of(hits[i], path, chunk_index));
    }
    if is_of(hits.last(), path, chunk_index) {
        assert(is_of(hits[hits.len() - 1], path, chunk_index));
    }
    if is_hit(hits, path, chunk_index) && !is_of(hits.last(), path, chunk_index) {
        let i = choose|i: int| 0 <= i < hits.len() && is_of(#[trigger] hits[i], path, chunk_index);
        assert(is_of(less[i], path, chunk_index));
    }
}

/// What counting in a ranking does to the candidates.
proof fn lemma_with_ranking(c: Seq<CandidateView>, hits: Seq<HitView>, by_vector: bool, k: int)
    requires
        no_chunk_twice(c),
        0 <= k < with_ranking(c, hits, by_vector).len(),
    ensures
        c.len() <= with_ranking(c, hits, by_vector).len(),
        ({
            let r = with_ranking(c, hits, by_vector)[k];
            let w = weight(hits, r.path, r.chunk_index);
            if k < c.len() {
                &&& r.path == c[k].path && r.chunk_index == c[k].chunk_index
                &&& r.text == c[k].text && r.snippet == c[k].snippet
                &&& r.rank == c[k].rank + w
                &&& r.dense == if by_vector && is_hit(hits, r.path, r.chunk_index) {
                    last_score(hits, r.path, r.chunk_index)
                } else {
                    c[k].dense
                }
            } else {
                &&& is_hit(hits, r.path, r.chunk_index)
                &&& candidate_place(c, r.path, r.chunk_index) is None
                &&& r.rank == w
                &&& r.dense == if by_vector {
                    last_score(hits, r.path, r.chunk_index)
                } else {
                    None
                }
                &&& exists|i: int|
                    0 <= i < hits.len() && is_of(#[trigger] hits[i], r.path, r.chunk_index)
                        && r.text == hits[i].text && r.snippet == hits[i].snippet
            }
        }),
    decreases hits.len(),
{
    if hits.len() > 0 {
        let less = hits.drop_last();
        let h = hits.last();
        let n = hits.len() - 1;
        assert(hits[n] == h);
        let before = with_ranking(c, less, by_vector);
        let after = with_ranking(c, hits, by_vector);
        law_a_chunk_is_one_candidate(c, less, by_vector);
        lemma_candidate_place(before, h.path, h.chunk_index);
        let r = after[k];
        lemma_is_hit_step(hits, r.path, r.chunk_index);
        assert(contribution(n) == (1000000000000000000int / (60 + hits.len() as int)));
        if k < before.len() {
            lemma_with_ranking(c, less, by_vector, k);
            assert(after[k].path == before[k].path && after[k].chunk_index
                == before[k].chunk_index);
            if is_of(h, r.path, r.chunk_index) {
                match candidate_place(before, h.path, h.chunk_index) {
                    Some(j) => {
                        if j < k {
                            assert(before[j].path == before[k].path);
                        }
                        if k < j {
                            assert(before[k].path == before[j].path);
                        }
                    },
                    None => {
                        assert(before[k].path == h.path);
                    },
                }
            }
            if k >= c.len() {
                let i = choose|i: int|
                    0 <= i < less.len() && is_of(#[trigger] less[i], r.path, r.chunk_index)
                        && r.text == less[i].text && r.snippet == less[i].snippet;
                assert(hits[i] == less[i]);
            }
        } else {
            assert(k == before.len());
            if before.len() > 0 {
                lemma_with_ranking(c, less, by_vector, 0);
            } else {
                lemma_with_ranking_grows(c, less, by_vector);
            }
            lemma_not_hit(c, less, by_vector, h.path, h.chunk_index);
            lemma_weight_of_none(less, h.path, h.chunk_index);
        }
    }
}

proof fn lemma_with_ranking_grows(c: Seq<CandidateView>, hits: Seq<HitView>, by_vector: bool)
    ensures
        c.len() <= with_ranking(c, hits, by_vector).len(),
        forall|k: int|
            0 <= k < c.len() ==> (#[trigger] with_ranking(c, hits, by_vector)[k]).path == c[k].path
                && with_ranking(c, hits, by_vector)[k].chunk_index == c[k].chunk_index,
    decreases hits.len(),
{
    if hits.len() > 0 {
        lemma_with_ranking_grows(c, hits.drop_last(), by_vector);
        let before = with_ranking(c, hits.drop_last(), by_vector);
        lemma_candidate_place(before, hits.last().path, hits.last().chunk_index);
    }
}

/// Every hit is a candidate.
proof fn lemma_hit_is_candidate(
    c: Seq<CandidateView>,
    hits: Seq<HitView>,
    by_vector: bool,
    i: int,
) -> (k: int)
    requires
        0 <= i < hits.len(),
    ensures
        0 <= k < with_ranking(c, hits, by_vector).len(),
        with_ranking(c, hits, by_vector)[k].path == hits[i].path,
        with_ranking(c, hits, by_vector)[k].chunk_index == hits[i].chunk_index,
    decreases hits.len(),
{
    let less = hits.drop_last();
    let h = hits.last();
    let before = with_ranking(c, less, by_vector);
    lemma_candidate_place(before, h.path, h.chunk_index);
    if i == hits.len() - 1 {
        match candidate_place(before, h.path, h.chunk_index) {
            Some(k) => k,
            None => before.len() as int,
        }
    } else {
        assert(less[i] == hits[i]);
        lemma_hit_is_candidate(c, less, by_vector, i)
    }
}

proof fn lemma_not_hit(
    c: Seq<CandidateView>,
    hits: Seq<HitView>,
    by_vector: bool,
    path: Seq<char>,
    chunk_index: int,
)
    requires
        candidate_place(with_ranking(c, hits, by_vector), path, chunk_index) is None,
    ensures
        !is_hit(hits, path, chunk_index),
        candidate_place(c, path, chunk_index) is None,
{
    let all = with_ranking(c, hits, by_vector);
    lemma_candidate_place(all, path, chunk_index);
    if is_hit(hits, path, chunk_index) {
        let i = choose|i: int| 0 <= i < hits.len() && is_of(#[trigger] hits[i], path, chunk_index);
        let k = lemma_hit_is_candidate(c, hits, by_vector, i);
        assert(all[k].path == path);
    }
    lemma_candidate_place(c, path, chunk_index);
    lemma_with_ranking_grows(c, hits, by_vector);
    if let Some(k) = candidate_place(c, path, chunk_index) {
        assert(all[k].path == c[k].path);
    }
}

proof fn lemma_weight_of_none(hits: Seq<HitView>, path: Seq<char>, chunk_index: int)
    requires
        !is_hit(hits, path, chunk_index),
    ensures
        weight(hits, path, chunk_index) == 0,
        last_score(hits, path, chunk_index) is None,
    decreases hits.len(),
{
    if hits.len() > 0 {
        lemma_is_hit_step(hits, path, chunk_index);
        lemma_weight_of_none(hits.drop_last(), path, chunk_index);
    }
}

proof fn lemma_weight_of_one(hits: Seq<HitView>, i: int)
    requires
        no_hit_twice(hits),
        0 <= i < hits.len(),
    ensures
        weight(hits, hits[i].path, hits[i].chunk_index) == 1000000000000000000int / (61 + i),
        last_score(hits, hits[i].path, hits[i].chunk_index) == Some(hits[i].score),
    decreases hits.len(),
{
    let less = hits.drop_last();
    let path = hits[i].path;
    let chunk = hits[i].chunk_index;
    assert(no_hit_twice(less)) by {
        assert forall|a: int, b: int| 0 <= a < b < less.len() implies !((#[trigger] less[a]).path == (
        #[trigger] less[b]).path && less[a].chunk_index == less[b].chunk_index) by {
            assert(less[a] == hits[a] && less[b] == hits[b]);
        }
    }
    if i == hits.len() - 1 {
        if is_hit(less, path, chunk) {
            let j = choose|j: int| 0 <= j < less.len() && is_of(#[trigger] less[j], path, chunk);
            assert(hits[j] == less[j]);
        }
        lemma_weight_of_none(less, path, chunk);
    } else {
        assert(less[i] == hits[i]);
        lemma_weight_of_one(less, i);
        let last = hits[hits.len() - 1];
        assert(!is_of(last, path, chunk));
    }
}

/// The candidates for a question.
pub open spec fn candidates(dense: Seq<HitView>, sparse: Seq<HitView>, hybrid: bool) -> Seq<
    CandidateView,
> {
    if hybrid {
        fused(dense, sparse)
    } else {
        dense_only(dense)
    }
}

proof fn lemma_fused(dense: Seq<HitView>, sparse: Seq<HitView>, k: int) -> (j: int)
    requires
        0 <= k < fused(dense, sparse).len(),
    ensures
        ({
            let all = with_ranking(with_ranking(Seq::empty(), dense, true), sparse, false);
            0 <= j < all.len() && fused(dense, sparse)[k] == all[j]
        }),
{
    let all = with_ranking(with_ranking(Seq::empty(), dense, true), sparse, false);
    let above = |a: CandidateView, b: CandidateView| ranks_above(a, b);
    crate::order::law_sorting_orders_and_keeps(all, above);
    let out = fused(dense, sparse);
    vstd::seq_lib::to_multiset_contains(out, out[k]);
    assert(out.contains(out[k]));
    vstd::seq_lib::to_multiset_contains(all, out[k]);
    choose|j: int| 0 <= j < all.len() && all[j] == out[k]
}

proof fn lemma_in_fused(dense: Seq<HitView>, sparse: Seq<HitView>, j: int) -> (k: int)
    requires
        0 <= j < with_ranking(with_ranking(Seq::empty(), dense, true), sparse, false).len(),
    ensures
        0 <= k < fused(dense, sparse).len(),
        fused(dense, sparse)[k] == with_ranking(
            with_ranking(Seq::empty(), dense, true),
            sparse,
            false,
        )[j],
{
    let all = with_ranking(with_ranking(Seq::empty(), dense, true), sparse, false);
    let above = |a: CandidateView, b: CandidateView| ranks_above(a, b);
    crate::order::law_sorting_orders_and_keeps(all, above);
    let out = fused(dense, sparse);
    assert(all.contains(all[j]));
    vstd::seq_lib::to_multiset_contains(all, all[j]);
    vstd::seq_lib::to_multiset_contains(out, all[j]);
    choose|k: int| 0 <= k < out.len() && out[k] == all[j]
}

/// The rank of a candidate is what the two rankings give to its chunk, whichever of them found
/// it. How near it is, it is told by the vectors alone, and its text is that of a hit.
pub proof fn law_a_rank_is_the_sum_of_both_rankings(
    dense: Seq<HitView>,
    sparse: Seq<HitView>,
    k: int,
)
    requires
        0 <= k < candidates(dense, sparse, true).len(),
    ensures
        ({
            let c = candidates(dense, sparse, true)[k];
            &&& c.rank == weight(dense, c.path, c.chunk_index) + weight(
                sparse,
                c.path,
                c.chunk_index,
            )
            &&& is_hit(dense, c.path, c.chunk_index) || is_hit(sparse, c.path, c.chunk_index)
            &&& c.dense == last_score(dense, c.path, c.chunk_index)
            &&& (exists|i: int| 0 <= i < dense.len() && is_shown_by(c, #[trigger] dense[i])) || (
            exists|i: int| 0 <= i < sparse.len() && is_shown_by(c, #[trigger] sparse[i]))
        }),
{
    let none = Seq::<CandidateView>::empty();
    let first = with_ranking(none, dense, true);
    let all = with_ranking(first, sparse, false);
    let j = lemma_fused(dense, sparse, k);
    let c = all[j];
    law_a_chunk_is_one_candidate(none, dense, true);
    lemma_with_ranking(first, sparse, false, j);
    lemma_candidate_place(none, c.path, c.chunk_index);
    if j < first.len() {
        lemma_with_ranking(none, dense, true, j);
        let i = choose|i: int|
            0 <= i < dense.len() && is_of(#[trigger] dense[i], c.path, c.chunk_index)
                && first[j].text == dense[i].text && first[j].snippet == dense[i].snippet;
        assert(is_shown_by(c, dense[i]));
    } else {
        lemma_not_hit(none, dense, true, c.path, c.chunk_index);
        lemma_weight_of_none(dense, c.path, c.chunk_index);
        let i = choose|i: int|
            0 <= i < sparse.len() && is_of(#[trigger] sparse[i], c.path, c.chunk_index) && c.text
                == sparse[i].text && c.snippet == sparse[i].snippet;
        assert(is_shown_by(c, sparse[i]));
    }
}

/// Where neither ranking names a chunk twice, a chunk ranks by the reciprocals of its places:
/// by both where both rankings hold it, and by the one where one does.
pub proof fn law_a_place_is_worth_the_same_in_each_ranking(
    dense: Seq<HitView>,
    sparse: Seq<HitView>,
    k: int,
    i: int,
    j: int,
)
    requires
        no_hit_twice(dense),
        no_hit_twice(sparse),
        0 <= k < candidates(dense, sparse, true).len(),
        0 <= i < dense.len() || !is_hit(
            dense,
            candidates(dense, sparse, true)[k].path,
            candidates(dense, sparse, true)[k].chunk_index,
        ),
        0 <= j < sparse.len() || !is_hit(
            sparse,
            candidates(dense, sparse, true)[k].path,
            candidates(dense, sparse, true)[k].chunk_index,
        ),
        0 <= i < dense.len() ==> is_of(
            dense[i],
            candidates(dense, sparse, true)[k].path,
            candidates(dense, sparse, true)[k].chunk_index,
        ),
        0 <= j < sparse.len() ==> is_of(
            sparse[j],
            candidates(dense, sparse, true)[k].path,
            candidates(dense, sparse, true)[k].chunk_index,
        ),
    ensures
        candidates(dense, sparse, true)[k].rank == (if 0 <= i < dense.len() {
            1000000000000000000int / (61 + i)
        } else {
            0
        }) + (if 0 <= j < sparse.len() {
            1000000000000000000int / (61 + j)
        } else {
            0
        }),
        candidates(dense, sparse, true)[k].dense == (if 0 <= i < dense.len() {
            Some(dense[i].score)
        } else {
            None
        }),
{
    let c = candidates(dense, sparse, true)[k];
    law_a_rank_is_the_sum_of_both_rankings(dense, sparse, k);
    if 0 <= i < dense.len() {
        lemma_weight_of_one(dense, i);
    } else {
        lemma_weight_of_none(dense, c.path, c.chunk_index);
    }
    if 0 <= j < sparse.len() {
        lemma_weight_of_one(sparse, j);
    } else {
        lemma_weight_of_none(sparse, c.path, c.chunk_index);
    }
}

/// The candidates come in descending order of their ranks, each chunk once.
pub proof fn law_candidates_come_by_their_ranks(dense: Seq<HitView>, sparse: Seq<HitView>)
    ensures
        forall|a: int, b: int|
            0 <= a < b < candidates(dense, sparse, true).len() ==> (
            #[trigger] candidates(dense, sparse, true)[a]).rank >= (
            #[trigger] candidates(dense, sparse, true)[b]).rank,
{
    let all = with_ranking(with_ranking(Seq::empty(), dense, true), sparse, false);
    let above = |a: CandidateView, b: CandidateView| ranks_above(a, b);
    crate::order::law_sorting_orders_and_keeps(all, above);
    let out = candidates(dense, sparse, true);
    assert forall|a: int, b: int| 0 <= a < b < out.len() implies (#[trigger] out[a]).rank >= (
    #[trigger] out[b]).rank by {
        assert(!above(out[b], out[a]));
    }
}

/// Whatever either ranking found is a candidate.
pub proof fn law_no_hit_is_lost(dense: Seq<HitView>, sparse: Seq<HitView>, i: int, by_vector: bool) -> (k:
    int)
    requires
        0 <= i < (if by_vector {
            dense
        } else {
            sparse
        }).len(),
    ensures
        0 <= k < candidates(dense, sparse, true).len(),
        is_of(
            (if by_vector {
                dense
            } else {
                sparse
            })[i],
            candidates(dense, sparse, true)[k].path,
            candidates(dense, sparse, true)[k].chunk_index,
        ),
{
    let first = with_ranking(Seq::empty(), dense, true);
    let all = with_ranking(first, sparse, false);
    if by_vector {
        let j = lemma_hit_is_candidate(Seq::empty(), dense, true, i);
        lemma_with_ranking_grows(first, sparse, false);
        assert(all[j].path == first[j].path);
        lemma_in_fused(dense, sparse, j)
    } else {
        let j = lemma_hit_is_candidate(first, sparse, false, i);
        lemma_in_fused(dense, sparse, j)
    }
}

/// Without the keywords the candidates are the hits of the vectors, in their order, each ranked
/// as near as it is.
pub proof fn law_the_vectors_alone_keep_their_order(
    dense: Seq<HitView>,
    sparse: Seq<HitView>,
    i: int,
)
    requires
        0 <= i < dense.len(),
    ensures
        candidates(dense, sparse, false).len() == dense.len(),
        is_of(
            dense[i],
            candidates(dense, sparse, false)[i].path,
            candidates(dense, sparse, false)[i].chunk_index,
        ),
        candidates(dense, sparse, false)[i].rank == dense[i].score,
        candidates(dense, sparse, false)[i].dense == Some(dense[i].score),
        candidates(dense, sparse, false)[i].text == dense[i].text,
        candidates(dense, sparse, false)[i].snippet == dense[i].snippet,
{
}

/// The reranker's last word on a chunk counts; a chunk of which it says nothing comes last.
pub proof fn law_the_last_word_counts(said: Seq<(usize, i64)>, n: nat, i: int)
    requires
        0 <= i < n,
    ensures
        keys_of(said, n).len() == n,
        forall|j: int|
            0 <= j < said.len() && (#[trigger] said[j]).0 == i && (forall|l: int|
                j < l < said.len() ==> (#[trigger] said[l]).0 != i) ==> keys_of(said, n)[i]
                == said[j].1,
        (forall|j: int| 0 <= j < said.len() ==> (#[trigger] said[j]).0 != i) ==> keys_of(said, n)[i]
            == i64::MIN,
    decreases said.len(),
{
    if said.len() > 0 {
        let less = said.drop_last();
        law_the_last_word_counts(less, n, i);
        let last = said[said.len() - 1];
        if last.0 != i {
            assert forall|j: int|
                0 <= j < said.len() && (#[trigger] said[j]).0 == i && (forall|l: int|
                    j < l < said.len() ==> (#[trigger] said[l]).0 != i) implies keys_of(said, n)[i]
                == said[j].1 by {
                assert(less[j] == said[j]);
                assert forall|l: int| j < l < less.len() implies (#[trigger] less[l]).0 != i by {
                    assert(less[l] == said[l]);
                }
            }
            if forall|j: int| 0 <= j < said.len() ==> (#[trigger] said[j]).0 != i {
                assert forall|j: int| 0 <= j < less.len() implies (#[trigger] less[j]).0 != i by {
                    assert(less[j] == said[j]);
                }
            }
        }
    }
}

/// The key by which a candidate is finally ordered: that of the reranker where it was asked,
/// else its rank. Where it was asked, what has no key is not looked at.
pub open spec fn final_key(c: Seq<CandidateView>, keys: Option<Seq<i64>>, place: int) -> Option<int> {
    match keys {
        Some(k) => if 0 <= place < k.len() && place < c.len() {
            Some(k[place] as int)
        } else {
            None
        },
        None => if 0 <= place < c.len() {
            Some(c[place].rank)
        } else {
            None
        },
    }
}

/// The files that are shown for a question.
pub open spec fn shown_files(
    c: Seq<CandidateView>,
    keys: Option<Seq<i64>>,
    exists_: spec_fn(Seq<char>) -> bool,
    limit: nat,
) -> Seq<ResultView> {
    results_of(c, final_places(c, keys), exists_, limit, final_places(c, keys).len())
}

proof fn lemma_final_places(c: Seq<CandidateView>, keys: Option<Seq<i64>>)
    ensures
        ({
            let at = final_places(c, keys);
            &&& forall|i: int| 0 <= i < at.len() ==> final_key(c, keys, #[trigger] at[i]) is Some
            &&& forall|i: int, j: int|
                0 <= i < j < at.len() ==> final_key(c, keys, #[trigger] at[i])->Some_0
                    >= final_key(c, keys, #[trigger] at[j])->Some_0
        }),
{
    let items = keyed(c, keys);
    let above = |a: Keyed, b: Keyed| keyed_above(a, b);
    crate::order::law_sorting_orders_and_keeps(items, above);
    let out = final_order(c, keys);
    let at = final_places(c, keys);
    assert forall|i: int| 0 <= i < at.len() implies final_key(c, keys, #[trigger] at[i]) == Some(
        out[i].key,
    ) by {
        vstd::seq_lib::to_multiset_contains(out, out[i]);
        assert(out.contains(out[i]));
        vstd::seq_lib::to_multiset_contains(items, out[i]);
        let j = choose|j: int| 0 <= j < items.len() && items[j] == out[i];
        assert(items[j].place == j);
    }
    assert forall|i: int, j: int| 0 <= i < j < at.len() implies final_key(
        c,
        keys,
        #[trigger] at[i],
    )->Some_0 >= final_key(c, keys, #[trigger] at[j])->Some_0 by {
        assert(!above(out[j], out[i]));
        assert(final_key(c, keys, at[i]) == Some(out[i].key));
        assert(final_key(c, keys, at[j]) == Some(out[j].key));
    }
}

proof fn lemma_place_is_final(c: Seq<CandidateView>, keys: Option<Seq<i64>>, p: int) -> (i: int)
    requires
        final_key(c, keys, p) is Some,
    ensures
        0 <= i < final_places(c, keys).len(),
        final_places(c, keys)[i] == p,
{
    let items = keyed(c, keys);
    let above = |a: Keyed, b: Keyed| keyed_above(a, b);
    crate::order::law_sorting_orders_and_keeps(items, above);
    let out = final_order(c, keys);
    assert(items[p].place == p);
    assert(items.contains(items[p]));
    vstd::seq_lib::to_multiset_contains(items, items[p]);
    vstd::seq_lib::to_multiset_contains(out, items[p]);
    let i = choose|i: int| 0 <= i < out.len() && out[i] == items[p];
    assert(final_places(c, keys)[i] == p);
    i
}

/// How a result came about: the first place at which its file stands.
spec fn is_result(
    c: Seq<CandidateView>,
    at: Seq<int>,
    r: ResultView,
    k: int,
) -> bool {
    &&& 0 <= k < at.len()
    &&& r == (ResultView { path: c[at[k]].path, snippet: c[at[k]].snippet, place: at[k] })
    &&& !seen_before(c, at, k, r.path)
}

proof fn lemma_result(
    c: Seq<CandidateView>,
    at: Seq<int>,
    exists_: spec_fn(Seq<char>) -> bool,
    limit: nat,
    n: nat,
    i: int,
) -> (k: int)
    requires
        n <= at.len(),
        0 <= i < results_of(c, at, exists_, limit, n).len(),
    ensures
        k < n,
        is_result(c, at, results_of(c, at, exists_, limit, n)[i], k),
    decreases n,
{
    let before = results_of(c, at, exists_, limit, (n - 1) as nat);
    if i < before.len() {
        lemma_result(c, at, exists_, limit, (n - 1) as nat, i)
    } else {
        n - 1
    }
}

proof fn lemma_results_in_order(
    c: Seq<CandidateView>,
    at: Seq<int>,
    exists_: spec_fn(Seq<char>) -> bool,
    limit: nat,
    n: nat,
    i: int,
    j: int,
) -> (r: (int, int))
    requires
        n <= at.len(),
        0 <= i < j < results_of(c, at, exists_, limit, n).len(),
    ensures
        0 <= r.0 < r.1 < n,
        is_result(c, at, results_of(c, at, exists_, limit, n)[i], r.0),
        is_result(c, at, results_of(c, at, exists_, limit, n)[j], r.1),
    decreases n,
{
    let m = (n - 1) as nat;
    let before = results_of(c, at, exists_, limit, m);
    if j < before.len() {
        lemma_results_in_order(c, at, exists_, limit, m, i, j)
    } else {
        let k = lemma_result(c, at, exists_, limit, m, i);
        (k, n - 1)
    }
}

/// What is there and not shown was left out for want of room, behind what is shown.
proof fn lemma_nothing_skipped(
    c: Seq<CandidateView>,
    at: Seq<int>,
    exists_: spec_fn(Seq<char>) -> bool,
    limit: nat,
    n: nat,
    k: int,
)
    requires
        n <= at.len(),
        0 <= k < n,
        exists_(c[at[k]].path),
    ensures
        ({
            let r = results_of(c, at, exists_, limit, n);
            ||| exists|i: int| 0 <= i < r.len() && (#[trigger] r[i]).path == c[at[k]].path
            ||| r.len() >= limit && r == results_of(c, at, exists_, limit, k as nat)
        }),
    decreases n,
{
    let m = (n - 1) as nat;
    let before = results_of(c, at, exists_, limit, m);
    let r = results_of(c, at, exists_, limit, n);
    if k < n - 1 {
        lemma_nothing_skipped(c, at, exists_, limit, m, k);
        if exists|i: int| 0 <= i < before.len() && (#[trigger] before[i]).path == c[at[k]].path {
            let i = choose|i: int|
                0 <= i < before.len() && (#[trigger] before[i]).path == c[at[k]].path;
            assert(r[i].path == c[at[k]].path);
        } else {
            assert(r == before);
        }
    } else if before.len() >= limit {
    } else if seen_before(c, at, k, c[at[k]].path) {
        let l = choose|l: int| 0 <= l < k && c[#[trigger] at[l]].path == c[at[k]].path;
        lemma_nothing_skipped(c, at, exists_, limit, m, l);
        let i = choose|i: int|
            0 <= i < before.len() && (#[trigger] before[i]).path == c[at[l]].path;
        assert(r[i].path == c[at[k]].path);
    } else {
        assert(r[before.len() as int].path == c[at[k]].path);
    }
}

/// A file is shown by its best chunk, and the files come in descending order of their keys.
pub proof fn law_a_file_is_shown_by_its_best_chunk(
    c: Seq<CandidateView>,
    keys: Option<Seq<i64>>,
    exists_: spec_fn(Seq<char>) -> bool,
    limit: nat,
    i: int,
)
    requires
        0 <= i < shown_files(c, keys, exists_, limit).len(),
    ensures
        ({
            let r = shown_files(c, keys, exists_, limit);
            &&& final_key(c, keys, r[i].place) is Some
            &&& r[i].path == c[r[i].place].path && r[i].snippet == c[r[i].place].snippet
            &&& forall|p: int|
                (#[trigger] final_key(c, keys, p)) is Some && c[p].path == r[i].path
                    ==> final_key(c, keys, r[i].place)->Some_0 >= final_key(c, keys, p)->Some_0
            &&& forall|j: int|
                i < j < r.len() ==> final_key(c, keys, r[i].place)->Some_0 >= final_key(
                    c,
                    keys,
                    (#[trigger] r[j]).place,
                )->Some_0
        }),
{
    let r = shown_files(c, keys, exists_, limit);
    let at = final_places(c, keys);
    lemma_final_places(c, keys);
    let k = lemma_result(c, at, exists_, limit, at.len(), i);
    assert forall|p: int| (#[trigger] final_key(c, keys, p)) is Some && c[p].path == r[i].path implies final_key(
        c,
        keys,
        r[i].place,
    )->Some_0 >= final_key(c, keys, p)->Some_0 by {
        let l = lemma_place_is_final(c, keys, p);
        if l < k {
            assert(c[at[l]].path == r[i].path);
        }
        if k < l {
            assert(final_key(c, keys, at[k])->Some_0 >= final_key(c, keys, at[l])->Some_0);
        }
    }
    assert forall|j: int| i < j < r.len() implies final_key(c, keys, r[i].place)->Some_0
        >= final_key(c, keys, (#[trigger] r[j]).place)->Some_0 by {
        let (a, b) = lemma_results_in_order(c, at, exists_, limit, at.len(), i, j);
        assert(final_key(c, keys, at[a])->Some_0 >= final_key(c, keys, at[b])->Some_0);
    }
}

/// A file that is there and was found is shown, unless as many as asked for are that have keys
/// that are no less.
pub proof fn law_no_better_file_is_left_out(
    c: Seq<CandidateView>,
    keys: Option<Seq<i64>>,
    exists_: spec_fn(Seq<char>) -> bool,
    limit: nat,
    p: int,
)
    requires
        final_key(c, keys, p) is Some,
        exists_(c[p].path),
    ensures
        ({
            let r = shown_files(c, keys, exists_, limit);
            ||| exists|i: int| 0 <= i < r.len() && (#[trigger] r[i]).path == c[p].path
            ||| r.len() == limit && forall|i: int|
                0 <= i < r.len() ==> final_key(c, keys, (#[trigger] r[i]).place)->Some_0
                    >= final_key(c, keys, p)->Some_0
        }),
{
    let r = shown_files(c, keys, exists_, limit);
    let at = final_places(c, keys);
    let k = lemma_place_is_final(c, keys, p);
    lemma_final_places(c, keys);
    lemma_results(c, at, exists_, limit, at.len());
    lemma_nothing_skipped(c, at, exists_, limit, at.len(), k);
    if !(exists|i: int| 0 <= i < r.len() && (#[trigger] r[i]).path == c[p].path) {
        assert forall|i: int| 0 <= i < r.len() implies final_key(c, keys, (#[trigger] r[i]).place)->Some_0
            >= final_key(c, keys, p)->Some_0 by {
            let l = lemma_result(c, at, exists_, limit, k as nat, i);
            assert(final_key(c, keys, at[l])->Some_0 >= final_key(c, keys, at[k])->Some_0);
        }
    }
}

} // verus!
