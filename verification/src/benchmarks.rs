//! Scores of embedding models: which rankings there are, and what they say of each model.

use vstd::prelude::*;

use crate::decimal::{decimal_of, read_decimal, whole_times};
use crate::installs::{url_encoded, urlencode};
use crate::order::{
    all_below, as_ints, law_sorting_orders_and_keeps, lemma_sorted_items, picked, sort_places,
    sorted_by, Ranked,
};
use crate::text::{
    cat2, cat3, cat4, contains, copy_opt, opt, str_contains, str_eq, to_chars, views,
};

verus! {

pub const MTEB_API: &'static str = "https://mteb-leaderboard-backend.hf.space/v1";

/// How long a ranking is kept, in seconds.
pub const BENCHMARKS_TTL_SECS: i64 = 604800;

// ---------------------------------------------------------------------------
// Addresses
// ---------------------------------------------------------------------------

pub fn boards_url() -> (r: String)
    ensures
        r@ == MTEB_API@ + "/benchmarks"@,
{
    cat2(MTEB_API, "/benchmarks")
}

pub fn board_url(name: &str) -> (r: String)
    ensures
        r@ == MTEB_API@ + "/benchmarks/"@ + url_encoded(name@),
{
    cat3(MTEB_API, "/benchmarks/", urlencode(name).as_str())
}

pub fn scores_url(name: &str) -> (r: String)
    ensures
        r@ == MTEB_API@ + "/benchmarks/"@ + url_encoded(name@) + "/scores"@,
{
    cat4(MTEB_API, "/benchmarks/", urlencode(name).as_str(), "/scores")
}

// ---------------------------------------------------------------------------
// Rankings
// ---------------------------------------------------------------------------

/// A ranking as it is listed.
#[derive(Debug)]
pub struct ApiBoard {
    pub name: String,
    pub display_name: Option<String>,
    pub num_models: Option<u32>,
    pub languages: Vec<String>,
    pub modalities: Vec<String>,
}

/// A ranking that can be chosen.
#[derive(Debug)]
pub struct BoardInfo {
    pub name: String,
    pub display_name: String,
    pub num_models: Option<u32>,
    pub languages: usize,
}

pub struct BoardView {
    pub name: Seq<char>,
    pub display_name: Seq<char>,
    pub num_models: Option<u32>,
    pub languages: nat,
}

impl BoardInfo {
    pub open spec fn view(self) -> BoardView {
        BoardView {
            name: self.name@,
            display_name: self.display_name@,
            num_models: self.num_models,
            languages: self.languages as nat,
        }
    }
}

pub open spec fn board_views(v: Seq<BoardInfo>) -> Seq<BoardView> {
    Seq::new(v.len(), |i: int| v[i].view())
}

/// The rankings that are not listed and are asked for by name.
pub open spec fn hidden_names() -> Seq<Seq<char>> {
    seq!["MTEB(Multilingual, v2)"@, "MTEB(eng, v2)"@]
}

pub open spec fn is_listed(boards: Seq<ApiBoard>, name: Seq<char>) -> bool {
    exists|i: int| 0 <= i < boards.len() && (#[trigger] boards[i]).name@ == name
}

fn listed(boards: &Vec<ApiBoard>, name: &str) -> (r: bool)
    ensures
        r == is_listed(boards@, name@),
{
    let mut i: usize = 0;
    while i < boards.len()
        invariant
            i <= boards.len(),
            forall|k: int| 0 <= k < i ==> (#[trigger] boards@[k]).name@ != name@,
        decreases boards.len() - i,
    {
        if str_eq(boards[i].name.as_str(), name) {
            return true;
        }
        i = i + 1;
    }
    false
}

/// The hidden rankings that are not among the listed ones.
pub fn missing_boards(boards: &Vec<ApiBoard>) -> (r: Vec<String>)
    ensures
        views(r@) == hidden_names().filter(|n: Seq<char>| !is_listed(boards@, n)),
{
    let ghost absent = |n: Seq<char>| !is_listed(boards@, n);
    let mut out: Vec<String> = Vec::new();
    let a = !listed(boards, "MTEB(Multilingual, v2)");
    let b = !listed(boards, "MTEB(eng, v2)");
    if a {
        out.push("MTEB(Multilingual, v2)".to_owned());
    }
    if b {
        out.push("MTEB(eng, v2)".to_owned());
    }
    proof {
        let h = hidden_names();
        reveal_with_fuel(Seq::filter, 3);
        assert(h.drop_last() =~= seq!["MTEB(Multilingual, v2)"@]);
        assert(h.drop_last().drop_last() =~= Seq::<Seq<char>>::empty());
        assert(h.last() == "MTEB(eng, v2)"@);
        assert(h.drop_last().last() == "MTEB(Multilingual, v2)"@);
        assert(absent("MTEB(Multilingual, v2)"@) == a);
        assert(absent("MTEB(eng, v2)"@) == b);
        assert(views(out@) =~= h.filter(absent));
    }
    out
}

/// A ranking of texts, and of nothing but texts.
pub open spec fn is_of_texts(modalities: Seq<String>) -> bool {
    modalities.len() == 0 || (modalities.len() == 1 && modalities[0]@ == "text"@)
}

pub open spec fn board_info(b: ApiBoard) -> BoardView {
    BoardView {
        name: b.name@,
        display_name: match b.display_name {
            Some(d) => d@,
            None => b.name@,
        },
        num_models: b.num_models,
        languages: b.languages@.len(),
    }
}

/// The rankings of texts, in the order in which they are listed.
pub open spec fn text_boards(boards: Seq<ApiBoard>) -> Seq<BoardView>
    decreases boards.len(),
{
    if boards.len() == 0 {
        Seq::empty()
    } else {
        let so_far = text_boards(boards.drop_last());
        if is_of_texts(boards.last().modalities@) {
            so_far.push(board_info(boards.last()))
        } else {
            so_far
        }
    }
}

/// How many models a ranking has, one that does not say it last.
pub open spec fn models_or_less(n: Option<u32>) -> int {
    match n {
        Some(k) => k as int,
        None => -1,
    }
}

/// The multilingual ranking comes first, then the one with the most models.
pub open spec fn comes_first(a: BoardView, b: BoardView) -> bool {
    let ga = contains(a.name, "Multilingual"@);
    let gb = contains(b.name, "Multilingual"@);
    (ga && !gb) || (ga == gb && models_or_less(a.num_models) > models_or_less(b.num_models))
}

struct RankedBoards<'a> {
    list: &'a Vec<BoardInfo>,
}

impl<'a> Ranked for RankedBoards<'a> {
    closed spec fn count(&self) -> nat {
        self.list@.len()
    }

    closed spec fn comes_before(&self, a: int, b: int) -> bool {
        comes_first(board_views(self.list@)[a], board_views(self.list@)[b])
    }

    fn is_before(&self, a: usize, b: usize) -> (r: bool) {
        let x = &self.list[a];
        let y = &self.list[b];
        let gx = str_contains(x.name.as_str(), "Multilingual");
        let gy = str_contains(y.name.as_str(), "Multilingual");
        let more = match x.num_models {
            Some(k) => match y.num_models {
                Some(l) => k > l,
                None => true,
            },
            None => false,
        };
        (gx && !gy) || (gx == gy && more)
    }
}

fn keep_text_boards(boards: &Vec<ApiBoard>) -> (r: Vec<BoardInfo>)
    ensures
        board_views(r@) == text_boards(boards@),
{
    let mut out: Vec<BoardInfo> = Vec::new();
    let mut i: usize = 0;
    assert(board_views(out@) =~= Seq::<BoardView>::empty());
    assert(boards@.take(0) =~= Seq::<ApiBoard>::empty());
    while i < boards.len()
        invariant
            i <= boards.len(),
            board_views(out@) == text_boards(boards@.take(i as int)),
        decreases boards.len() - i,
    {
        assert(boards@.take(i + 1).drop_last() =~= boards@.take(i as int));
        assert(boards@.take(i + 1).last() == boards@[i as int]);
        let b = &boards[i];
        let ghost before = board_views(out@);
        let m: usize = b.modalities.len();
        if m == 0 || (m == 1 && str_eq(b.modalities[0].as_str(), "text")) {
            let info = BoardInfo {
                name: b.name.clone(),
                display_name: match &b.display_name {
                    Some(d) => d.clone(),
                    None => b.name.clone(),
                },
                num_models: b.num_models,
                languages: b.languages.len(),
            };
            let ghost iv = info.view();
            out.push(info);
            assert(board_views(out@) =~= before.push(iv));
        }
        i = i + 1;
    }
    assert(boards@.take(i as int) =~= boards@);
    out
}

/// The rankings that can be chosen.
pub fn list_boards(boards: &Vec<ApiBoard>) -> (r: Vec<BoardInfo>)
    ensures
        board_views(r@) == sorted_by(
            text_boards(boards@),
            |a: BoardView, b: BoardView| comes_first(a, b),
        ),
{
    let found = keep_text_boards(boards);
    let n: usize = found.len();
    let ghost all = board_views(found@);
    let list = RankedBoards { list: &found };
    let order = sort_places(&list, n);
    proof {
        lemma_sorted_items(&list, all, |a: BoardView, b: BoardView| comes_first(a, b));
    }
    let ghost want = picked(all, as_ints(order@));
    let mut out: Vec<BoardInfo> = Vec::new();
    let mut i: usize = 0;
    while i < n
        invariant
            i <= n,
            n == found@.len(),
            order@.len() == n,
            all == board_views(found@),
            all_below(as_ints(order@), n as nat),
            want == picked(all, as_ints(order@)),
            board_views(out@) == want.take(i as int),
        decreases n - i,
    {
        assert(0 <= as_ints(order@)[i as int] < n);
        let ghost before = board_views(out@);
        let b = &found[order[i]];
        out.push(
            BoardInfo {
                name: b.name.clone(),
                display_name: b.display_name.clone(),
                num_models: b.num_models,
                languages: b.languages,
            },
        );
        assert(board_views(out@) =~= before.push(want[i as int]));
        i = i + 1;
        assert(board_views(out@) =~= want.take(i as int));
    }
    assert(want.take(i as int) =~= want);
    out
}

// ---------------------------------------------------------------------------
// The scores of a ranking
// ---------------------------------------------------------------------------

/// The text of a number above zero.
pub open spec fn is_positive(s: Seq<char>) -> bool {
    match decimal_of(s) {
        Some(d) => !d.negative && match d.special {
            Some(unbounded) => unbounded,
            None => exists|i: int| 0 <= i < d.digits.len() && #[trigger] d.digits[i] != '0',
        },
        None => false,
    }
}

pub fn positive(s: &str) -> (r: bool)
    ensures
        r == is_positive(s@),
{
    let c = to_chars(s);
    match read_decimal(c.as_slice()) {
        Some(d) => {
            if d.negative {
                return false;
            }
            if let Some(unbounded) = d.special {
                return unbounded;
            }
            let ghost digits = decimal_of(s@)->Some_0.digits;
            let mut i: usize = 0;
            while i < d.digits.len()
                invariant
                    i <= d.digits.len(),
                    digits == d.digits@,
                    decimal_of(s@) matches Some(v) && !v.negative && v.special is None && v.digits
                        == digits,
                    forall|k: int| 0 <= k < i ==> #[trigger] digits[k] == '0',
                decreases d.digits.len() - i,
            {
                if d.digits[i] != '0' {
                    assert(digits[i as int] != '0');
                    return true;
                }
                i = i + 1;
            }
            false
        },
        None => false,
    }
}

/// A score that was given: zero stands for none.
pub open spec fn given(score: Option<Seq<char>>) -> Option<Seq<char>> {
    match score {
        Some(s) => if is_positive(s) {
            Some(s)
        } else {
            None
        },
        None => None,
    }
}

fn if_given(score: &Option<String>) -> (r: Option<String>)
    ensures
        opt(r) == given(opt(*score)),
{
    match score {
        Some(s) => if positive(s.as_str()) {
            Some(s.clone())
        } else {
            None
        },
        None => None,
    }
}

/// A number without its fraction, zero at least.
pub open spec fn whole_part(number: Option<Seq<char>>) -> Option<u64> {
    match number {
        Some(s) => Some(
            match decimal_of(s) {
                Some(d) => whole_times(d, 0),
                None => 0,
            },
        ),
        None => None,
    }
}

fn dimension(number: &Option<String>) -> (r: Option<u64>)
    ensures
        r == whole_part(opt(*number)),
{
    match number {
        Some(s) => match read_decimal(to_chars(s.as_str()).as_slice()) {
            Some(d) => Some(d.times_power(0)),
            None => Some(0),
        },
        None => None,
    }
}

/// A row of a ranking. Numbers with a fraction stand as the texts that write them.
#[derive(Debug)]
pub struct ApiRow {
    pub rank: Option<u32>,
    pub name: String,
    pub url: Option<String>,
    pub embedding_dim: Option<String>,
    pub total_params_b: Option<String>,
    pub max_tokens: Option<String>,
    pub mean_task: Option<String>,
    pub retrieval: Option<String>,
}

/// What is kept of a row.
#[derive(Debug)]
pub struct CachedModel {
    pub name: String,
    pub url: Option<String>,
    pub embed_dim: Option<u64>,
    pub params_b: Option<String>,
    pub max_tokens: Option<String>,
    pub mean: Option<String>,
    pub retrieval: Option<String>,
    pub rank: Option<u32>,
}

pub struct CachedView {
    pub name: Seq<char>,
    pub url: Option<Seq<char>>,
    pub embed_dim: Option<u64>,
    pub params_b: Option<Seq<char>>,
    pub max_tokens: Option<Seq<char>>,
    pub mean: Option<Seq<char>>,
    pub retrieval: Option<Seq<char>>,
    pub rank: Option<u32>,
}

impl CachedModel {
    pub open spec fn view(self) -> CachedView {
        CachedView {
            name: self.name@,
            url: opt(self.url),
            embed_dim: self.embed_dim,
            params_b: opt(self.params_b),
            max_tokens: opt(self.max_tokens),
            mean: opt(self.mean),
            retrieval: opt(self.retrieval),
            rank: self.rank,
        }
    }
}

pub open spec fn cached_views(v: Seq<CachedModel>) -> Seq<CachedView> {
    Seq::new(v.len(), |i: int| v[i].view())
}

/// A ranking that is kept.
#[derive(Debug)]
pub struct CachedBoard {
    pub fetched_at: i64,
    pub total: u32,
    pub models: Vec<CachedModel>,
}

pub open spec fn kept_of(r: ApiRow) -> CachedView {
    CachedView {
        name: r.name@,
        url: opt(r.url),
        embed_dim: whole_part(opt(r.embedding_dim)),
        params_b: given(opt(r.total_params_b)),
        max_tokens: opt(r.max_tokens),
        mean: given(opt(r.mean_task)),
        retrieval: given(opt(r.retrieval)),
        rank: r.rank,
    }
}

/// What is kept of a ranking.
pub fn fetch_board(rows: &Vec<ApiRow>, now: i64) -> (r: CachedBoard)
    requires
        rows@.len() <= u32::MAX,
    ensures
        r.fetched_at == now,
        r.total == rows@.len(),
        cached_views(r.models@) == rows@.map_values(|row: ApiRow| kept_of(row)),
{
    let ghost want = rows@.map_values(|row: ApiRow| kept_of(row));
    let mut models: Vec<CachedModel> = Vec::new();
    let mut i: usize = 0;
    assert(cached_views(models@) =~= want.take(0));
    while i < rows.len()
        invariant
            i <= rows.len(),
            want == rows@.map_values(|row: ApiRow| kept_of(row)),
            cached_views(models@) == want.take(i as int),
        decreases rows.len() - i,
    {
        let row = &rows[i];
        let ghost before = cached_views(models@);
        let m = CachedModel {
            name: row.name.clone(),
            url: copy_opt(&row.url),
            embed_dim: dimension(&row.embedding_dim),
            params_b: if_given(&row.total_params_b),
            max_tokens: copy_opt(&row.max_tokens),
            mean: if_given(&row.mean_task),
            retrieval: if_given(&row.retrieval),
            rank: row.rank,
        };
        assert(m.view() == want[i as int]);
        models.push(m);
        assert(cached_views(models@) =~= before.push(want[i as int]));
        i = i + 1;
        assert(cached_views(models@) =~= want.take(i as int));
    }
    assert(want.take(i as int) =~= want);
    CachedBoard { fetched_at: now, total: rows.len() as u32, models }
}

/// Whether a ranking is asked for again. `kept` is since when it is kept.
pub fn board_needs_fetch(kept: Option<i64>, now: i64, refresh: bool) -> (r: bool)
    ensures
        r == (refresh || match kept {
            Some(at) => now - at >= BENCHMARKS_TTL_SECS,
            None => true,
        }),
{
    refresh || match kept {
        Some(at) => now as i128 - at as i128 >= BENCHMARKS_TTL_SECS as i128,
        None => true,
    }
}

// ---------------------------------------------------------------------------
// The models of several rankings
// ---------------------------------------------------------------------------

/// The score of a model in a ranking; without a mean it was not evaluated.
#[derive(Debug)]
pub struct BoardScore {
    pub board: String,
    pub mean: Option<String>,
    pub retrieval: Option<String>,
    pub rank: Option<u32>,
    pub total: Option<u32>,
}

#[derive(Debug)]
pub struct ModelBenchmark {
    pub name: String,
    pub hf: Option<String>,
    pub url: Option<String>,
    pub embed_dim: Option<u64>,
    pub params_b: Option<String>,
    pub max_tokens: Option<String>,
    pub scores: Vec<BoardScore>,
}

pub struct ScoreView {
    pub board: Seq<char>,
    pub mean: Option<Seq<char>>,
    pub retrieval: Option<Seq<char>>,
    pub rank: Option<u32>,
    pub total: Option<u32>,
}

#[verifier::ext_equal]
pub struct BenchmarkView {
    pub name: Seq<char>,
    pub hf: Option<Seq<char>>,
    pub url: Option<Seq<char>>,
    pub embed_dim: Option<u64>,
    pub params_b: Option<Seq<char>>,
    pub max_tokens: Option<Seq<char>>,
    pub scores: Seq<ScoreView>,
}

impl BoardScore {
    pub open spec fn view(self) -> ScoreView {
        ScoreView {
            board: self.board@,
            mean: opt(self.mean),
            retrieval: opt(self.retrieval),
            rank: self.rank,
            total: self.total,
        }
    }
}

pub open spec fn score_views(v: Seq<BoardScore>) -> Seq<ScoreView> {
    Seq::new(v.len(), |i: int| v[i].view())
}

impl ModelBenchmark {
    pub open spec fn view(self) -> BenchmarkView {
        BenchmarkView {
            name: self.name@,
            hf: opt(self.hf),
            url: opt(self.url),
            embed_dim: self.embed_dim,
            params_b: opt(self.params_b),
            max_tokens: opt(self.max_tokens),
            scores: score_views(self.scores@),
        }
    }
}

pub open spec fn benchmark_views(v: Seq<ModelBenchmark>) -> Seq<BenchmarkView> {
    Seq::new(v.len(), |i: int| v[i].view())
}

pub open spec fn model_place(v: Seq<BenchmarkView>, name: Seq<char>) -> Option<int>
    decreases v.len(),
{
    if v.len() == 0 {
        None
    } else if v.last().name == name {
        Some(v.len() - 1)
    } else {
        model_place(v.drop_last(), name)
    }
}

pub open spec fn or_else<T>(a: Option<T>, b: Option<T>) -> Option<T> {
    if a is Some {
        a
    } else {
        b
    }
}

pub open spec fn score_in(board: Seq<char>, total: u32, m: CachedView) -> ScoreView {
    ScoreView { board, mean: m.mean, retrieval: m.retrieval, rank: m.rank, total: Some(total) }
}

/// A model of a ranking joined to those that are known: what is known of a model stays, and
/// its scores follow each other.
pub open spec fn with_model(
    known: Seq<BenchmarkView>,
    board: Seq<char>,
    total: u32,
    m: CachedView,
) -> Seq<BenchmarkView> {
    match model_place(known, m.name) {
        Some(k) => known.update(
            k,
            BenchmarkView {
                embed_dim: or_else(known[k].embed_dim, m.embed_dim),
                params_b: or_else(known[k].params_b, m.params_b),
                max_tokens: or_else(known[k].max_tokens, m.max_tokens),
                scores: known[k].scores.push(score_in(board, total, m)),
                ..known[k]
            },
        ),
        None => known.push(
            BenchmarkView {
                name: m.name,
                hf: Some(m.name),
                url: m.url,
                embed_dim: m.embed_dim,
                params_b: m.params_b,
                max_tokens: m.max_tokens,
                scores: seq![score_in(board, total, m)],
            },
        ),
    }
}

pub open spec fn with_models(
    known: Seq<BenchmarkView>,
    board: Seq<char>,
    total: u32,
    models: Seq<CachedView>,
) -> Seq<BenchmarkView>
    decreases models.len(),
{
    if models.len() == 0 {
        known
    } else {
        with_model(
            with_models(known, board, total, models.drop_last()),
            board,
            total,
            models.last(),
        )
    }
}

/// A ranking that was asked for; it holds nothing where none is kept of it.
#[derive(Debug)]
pub struct AskedBoard {
    pub name: String,
    pub kept: Option<CachedBoard>,
}

/// The models of several rankings: each once, with its scores in the order of the rankings.
pub open spec fn merged(boards: Seq<AskedBoard>) -> Seq<BenchmarkView>
    decreases boards.len(),
{
    if boards.len() == 0 {
        Seq::empty()
    } else {
        let so_far = merged(boards.drop_last());
        match boards.last().kept {
            Some(c) => with_models(
                so_far,
                boards.last().name@,
                c.total,
                cached_views(c.models@),
            ),
            None => so_far,
        }
    }
}

fn find_model(v: &Vec<ModelBenchmark>, name: &str) -> (r: Option<usize>)
    ensures
        match r {
            Some(k) => k < v@.len() && model_place(benchmark_views(v@), name@) == Some(k as int),
            None => model_place(benchmark_views(v@), name@) is None,
        },
{
    let ghost all = benchmark_views(v@);
    let mut i: usize = v.len();
    assert(all.take(i as int) =~= all);
    while i > 0
        invariant
            i <= v.len(),
            all == benchmark_views(v@),
            model_place(all, name@) == model_place(all.take(i as int), name@),
        decreases i,
    {
        assert(all.take(i as int).drop_last() =~= all.take(i - 1));
        assert(all.take(i as int).last() == all[i - 1]);
        if str_eq(v[i - 1].name.as_str(), name) {
            return Some(i - 1);
        }
        i = i - 1;
    }
    None
}

fn add_score(m: &mut ModelBenchmark, board: &str, total: u32, row: &CachedModel)
    ensures
        final(m).view() == (BenchmarkView {
            embed_dim: or_else(old(m).view().embed_dim, row.embed_dim),
            params_b: or_else(old(m).view().params_b, opt(row.params_b)),
            max_tokens: or_else(old(m).view().max_tokens, opt(row.max_tokens)),
            scores: old(m).view().scores.push(score_in(board@, total, row.view())),
            ..old(m).view()
        }),
{
    let ghost before = m.view();
    if m.embed_dim.is_none() {
        m.embed_dim = row.embed_dim;
    }
    if m.params_b.is_none() {
        m.params_b = copy_opt(&row.params_b);
    }
    if m.max_tokens.is_none() {
        m.max_tokens = copy_opt(&row.max_tokens);
    }
    let score = BoardScore {
        board: board.to_owned(),
        mean: copy_opt(&row.mean),
        retrieval: copy_opt(&row.retrieval),
        rank: row.rank,
        total: Some(total),
    };
    let ghost sv = score.view();
    m.scores.push(score);
    assert(score_views(m.scores@) =~= before.scores.push(sv));
}

fn add_model(known: &mut Vec<ModelBenchmark>, board: &str, total: u32, row: &CachedModel)
    ensures
        benchmark_views(final(known)@) == with_model(
            benchmark_views(old(known)@),
            board@,
            total,
            row.view(),
        ),
{
    let ghost before = benchmark_views(known@);
    match find_model(known, row.name.as_str()) {
        Some(k) => {
            let ghost all = known@;
            add_score(&mut known[k], board, total, row);
            assert(known@.len() == all.len());
            assert(benchmark_views(known@) =~= before.update(k as int, known@[k as int].view()));
        },
        None => {
            let mut m = ModelBenchmark {
                name: row.name.clone(),
                hf: Some(row.name.clone()),
                url: copy_opt(&row.url),
                embed_dim: None,
                params_b: None,
                max_tokens: None,
                scores: Vec::new(),
            };
            assert(m.view().scores =~= Seq::<ScoreView>::empty());
            add_score(&mut m, board, total, row);
            assert(m.view().scores =~= seq![score_in(board@, total, row.view())]);
            let ghost mv = m.view();
            known.push(m);
            assert(benchmark_views(known@) =~= before.push(mv));
        },
    }
}

fn add_models(known: &mut Vec<ModelBenchmark>, board: &str, c: &CachedBoard)
    ensures
        benchmark_views(final(known)@) == with_models(
            benchmark_views(old(known)@),
            board@,
            c.total,
            cached_views(c.models@),
        ),
{
    let ghost before = benchmark_views(known@);
    let ghost rows = cached_views(c.models@);
    let mut i: usize = 0;
    assert(rows.take(0) =~= Seq::<CachedView>::empty());
    while i < c.models.len()
        invariant
            i <= c.models.len(),
            rows == cached_views(c.models@),
            benchmark_views(known@) == with_models(before, board@, c.total, rows.take(i as int)),
        decreases c.models.len() - i,
    {
        assert(rows.take(i + 1).drop_last() =~= rows.take(i as int));
        assert(rows.take(i + 1).last() == c.models@[i as int].view());
        add_model(known, board, c.total, &c.models[i]);
        i = i + 1;
    }
    assert(rows.take(i as int) =~= rows);
}

/// The models of the rankings that were asked for.
pub fn merge_boards(boards: &Vec<AskedBoard>) -> (r: Vec<ModelBenchmark>)
    ensures
        benchmark_views(r@) == merged(boards@),
{
    let mut out: Vec<ModelBenchmark> = Vec::new();
    let mut i: usize = 0;
    assert(benchmark_views(out@) =~= Seq::<BenchmarkView>::empty());
    assert(boards@.take(0) =~= Seq::<AskedBoard>::empty());
    while i < boards.len()
        invariant
            i <= boards.len(),
            benchmark_views(out@) == merged(boards@.take(i as int)),
        decreases boards.len() - i,
    {
        assert(boards@.take(i + 1).drop_last() =~= boards@.take(i as int));
        assert(boards@.take(i + 1).last() == boards@[i as int]);
        let b = &boards[i];
        if let Some(c) = &b.kept {
            add_models(&mut out, b.name.as_str(), c);
        }
        i = i + 1;
    }
    assert(boards@.take(i as int) =~= boards@);
    out
}

/// No model stands twice.
pub open spec fn no_model_twice(v: Seq<BenchmarkView>) -> bool {
    forall|i: int, j: int|
        0 <= i < j < v.len() ==> (#[trigger] v[i]).name != (#[trigger] v[j]).name
}

proof fn lemma_model_place(v: Seq<BenchmarkView>, name: Seq<char>)
    ensures
        match model_place(v, name) {
            Some(k) => 0 <= k < v.len() && v[k].name == name,
            None => forall|i: int| 0 <= i < v.len() ==> (#[trigger] v[i]).name != name,
        },
    decreases v.len(),
{
    if v.len() > 0 {
        lemma_model_place(v.drop_last(), name);
        assert forall|i: int| 0 <= i < v.len() - 1 implies (#[trigger] v[i]) == v.drop_last()[i] by {
        }
    }
}

proof fn lemma_models_once(
    known: Seq<BenchmarkView>,
    board: Seq<char>,
    total: u32,
    models: Seq<CachedView>,
)
    requires
        no_model_twice(known),
    ensures
        no_model_twice(with_models(known, board, total, models)),
    decreases models.len(),
{
    if models.len() > 0 {
        lemma_models_once(known, board, total, models.drop_last());
        let so_far = with_models(known, board, total, models.drop_last());
        lemma_model_place(so_far, models.last().name);
    }
}

/// A model is listed once, in however many rankings it stands.
pub proof fn law_a_model_is_listed_once(boards: Seq<AskedBoard>)
    ensures
        no_model_twice(merged(boards)),
    decreases boards.len(),
{
    if boards.len() > 0 {
        law_a_model_is_listed_once(boards.drop_last());
        if let Some(c) = boards.last().kept {
            lemma_models_once(
                merged(boards.drop_last()),
                boards.last().name@,
                c.total,
                cached_views(c.models@),
            );
        }
    }
}

/// A score that the ranking writes as zero is no score: the model was not evaluated.
pub proof fn law_zero_is_no_score(row: ApiRow, zero: Seq<char>)
    requires
        opt(row.mean_task) == Some(zero),
        decimal_of(zero) matches Some(d) && d.special is None && forall|i: int|
            0 <= i < d.digits.len() ==> #[trigger] d.digits[i] == '0',
    ensures
        kept_of(row).mean is None,
{
}

/// Every ranking of texts is listed, and no other: the multilingual ones first, and among those
/// of a kind none before one with more models.
pub proof fn law_rankings_are_listed_in_order(boards: Seq<ApiBoard>)
    ensures
        text_boards(boards) == boards.filter(
            |b: ApiBoard|
                b.modalities@.len() == 0 || (b.modalities@.len() == 1 && b.modalities@[0]@
                    == "text"@),
        ).map_values(|b: ApiBoard| board_info(b)),
        ({
            let v = sorted_by(
                text_boards(boards),
                |a: BoardView, b: BoardView| comes_first(a, b),
            );
            &&& v.to_multiset() == text_boards(boards).to_multiset()
            &&& forall|i: int, j: int|
                0 <= i < j < v.len() ==> (contains((#[trigger] v[j]).name, "Multilingual"@)
                    ==> contains((#[trigger] v[i]).name, "Multilingual"@))
            &&& forall|i: int, j: int|
                0 <= i < j < v.len() && contains((#[trigger] v[i]).name, "Multilingual"@)
                    == contains((#[trigger] v[j]).name, "Multilingual"@) ==> models_or_less(
                    v[i].num_models,
                ) >= models_or_less(v[j].num_models)
        }),
{
    lemma_text_boards(boards);
    let all = text_boards(boards);
    let before = |a: BoardView, b: BoardView| comes_first(a, b);
    let v = sorted_by(all, before);
    law_sorting_orders_and_keeps(all, before);
    assert forall|i: int, j: int| 0 <= i < j < v.len() implies !comes_first(
        #[trigger] v[j],
        #[trigger] v[i],
    ) by {
        assert(!before(v[j], v[i]));
    }
}

proof fn lemma_text_boards(boards: Seq<ApiBoard>)
    ensures
        text_boards(boards) == boards.filter(
            |b: ApiBoard|
                b.modalities@.len() == 0 || (b.modalities@.len() == 1 && b.modalities@[0]@
                    == "text"@),
        ).map_values(|b: ApiBoard| board_info(b)),
    decreases boards.len(),
{
    reveal(Seq::filter);
    let f = |b: ApiBoard|
        b.modalities@.len() == 0 || (b.modalities@.len() == 1 && b.modalities@[0]@ == "text"@);
    let g = |b: ApiBoard| board_info(b);
    if boards.len() > 0 {
        let less = boards.drop_last();
        lemma_text_boards(less);
        if f(boards.last()) {
            assert(boards.filter(f).map_values(g) =~= less.filter(f).map_values(g).push(
                g(boards.last()),
            ));
        }
    } else {
        assert(text_boards(boards) =~= boards.filter(f).map_values(g));
    }
}

/// What is known stays known: each model at its place, with the scores it has, and with what is
/// known of its size.
pub open spec fn goes_on(a: Seq<BenchmarkView>, b: Seq<BenchmarkView>) -> bool {
    &&& a.len() <= b.len()
    &&& forall|i: int| 0 <= i < a.len() ==> same_model(a[i], #[trigger] b[i])
}

pub open spec fn same_model(a: BenchmarkView, b: BenchmarkView) -> bool {
    &&& a.name == b.name
    &&& a.hf == b.hf
    &&& a.url == b.url
    &&& a.embed_dim is Some ==> b.embed_dim == a.embed_dim
    &&& a.params_b is Some ==> b.params_b == a.params_b
    &&& a.max_tokens is Some ==> b.max_tokens == a.max_tokens
    &&& a.scores.len() <= b.scores.len()
    &&& b.scores.take(a.scores.len() as int) == a.scores
}

/// The list tells a score of a model.
pub open spec fn tells(v: Seq<BenchmarkView>, name: Seq<char>, score: ScoreView) -> bool {
    exists|i: int|
        0 <= i < v.len() && (#[trigger] v[i]).name == name && v[i].scores.contains(score)
}

proof fn lemma_goes_on_through(a: Seq<BenchmarkView>, b: Seq<BenchmarkView>, c: Seq<BenchmarkView>)
    requires
        goes_on(a, b),
        goes_on(b, c),
    ensures
        goes_on(a, c),
{
    assert forall|i: int| 0 <= i < a.len() implies same_model(a[i], #[trigger] c[i]) by {
        assert(same_model(a[i], b[i]));
        assert(same_model(b[i], c[i]));
        let n = a[i].scores.len() as int;
        assert(c[i].scores.take(n) =~= b[i].scores.take(n)) by {
            assert forall|k: int| 0 <= k < n implies c[i].scores[k] == b[i].scores[k] by {
                assert(c[i].scores.take(b[i].scores.len() as int)[k] == c[i].scores[k]);
            }
        }
    }
}

proof fn lemma_tells_on(
    a: Seq<BenchmarkView>,
    b: Seq<BenchmarkView>,
    name: Seq<char>,
    score: ScoreView,
)
    requires
        goes_on(a, b),
        tells(a, name, score),
    ensures
        tells(b, name, score),
{
    let i = choose|i: int|
        0 <= i < a.len() && (#[trigger] a[i]).name == name && a[i].scores.contains(score);
    let k = choose|k: int| 0 <= k < a[i].scores.len() && a[i].scores[k] == score;
    assert(same_model(a[i], b[i]));
    assert(b[i].scores.take(a[i].scores.len() as int)[k] == b[i].scores[k]);
    assert(b[i].scores[k] == score);
}

proof fn lemma_place(v: Seq<BenchmarkView>, name: Seq<char>)
    ensures
        model_place(v, name) matches Some(k) ==> 0 <= k < v.len() && v[k].name == name,
    decreases v.len(),
{
    if v.len() > 0 && v.last().name != name {
        lemma_place(v.drop_last(), name);
    }
}

proof fn lemma_with_model(known: Seq<BenchmarkView>, board: Seq<char>, total: u32, m: CachedView)
    ensures
        goes_on(known, with_model(known, board, total, m)),
        tells(with_model(known, board, total, m), m.name, score_in(board, total, m)),
{
    let after = with_model(known, board, total, m);
    let score = score_in(board, total, m);
    lemma_place(known, m.name);
    assert forall|i: int| 0 <= i < known.len() implies same_model(
        known[i],
        #[trigger] after[i],
    ) by {
        assert(after[i].scores.take(known[i].scores.len() as int) =~= known[i].scores);
    }
    match model_place(known, m.name) {
        Some(k) => {
            assert(after[k].scores.last() == score);
            assert(after[k].scores.contains(score));
            assert(after[k].name == m.name);
        },
        None => {
            let k = known.len() as int;
            assert(after[k].scores[0] == score);
            assert(after[k].name == m.name);
        },
    }
}

proof fn lemma_with_models(
    known: Seq<BenchmarkView>,
    board: Seq<char>,
    total: u32,
    models: Seq<CachedView>,
)
    ensures
        goes_on(known, with_models(known, board, total, models)),
        forall|i: int|
            0 <= i < models.len() ==> tells(
                with_models(known, board, total, models),
                (#[trigger] models[i]).name,
                score_in(board, total, models[i]),
            ),
    decreases models.len(),
{
    if models.len() == 0 {
        assert forall|i: int| 0 <= i < known.len() implies same_model(
            known[i],
            #[trigger] known[i],
        ) by {
            assert(known[i].scores.take(known[i].scores.len() as int) =~= known[i].scores);
        }
    } else {
        let less = models.drop_last();
        let before = with_models(known, board, total, less);
        let after = with_models(known, board, total, models);
        lemma_with_models(known, board, total, less);
        lemma_with_model(before, board, total, models.last());
        lemma_goes_on_through(known, before, after);
        assert forall|i: int| 0 <= i < models.len() implies tells(
            after,
            (#[trigger] models[i]).name,
            score_in(board, total, models[i]),
        ) by {
            if i < less.len() {
                assert(less[i] == models[i]);
                lemma_tells_on(before, after, models[i].name, score_in(board, total, models[i]));
            }
        }
    }
}

/// No score is lost: whatever a ranking says of a model is told of it, with the ranking's name
/// and with how many models it has.
pub proof fn law_every_score_is_told(boards: Seq<AskedBoard>, b: int, i: int)
    requires
        0 <= b < boards.len(),
        boards[b].kept is Some,
        0 <= i < boards[b].kept->Some_0.models@.len(),
    ensures
        ({
            let m = boards[b].kept->Some_0.models@[i].view();
            tells(
                merged(boards),
                m.name,
                (ScoreView {
                    board: boards[b].name@,
                    mean: m.mean,
                    retrieval: m.retrieval,
                    rank: m.rank,
                    total: Some(boards[b].kept->Some_0.total),
                }),
            )
        }),
    decreases boards.len(),
{
    let less = boards.drop_last();
    let last = boards.last();
    if b < less.len() {
        assert(less[b] == boards[b]);
        law_every_score_is_told(less, b, i);
        if let Some(c) = last.kept {
            let m = boards[b].kept->Some_0.models@[i].view();
            lemma_with_models(merged(less), last.name@, c.total, cached_views(c.models@));
            lemma_tells_on(
                merged(less),
                merged(boards),
                m.name,
                score_in(boards[b].name@, boards[b].kept->Some_0.total, m),
            );
        }
    } else {
        let c = last.kept->Some_0;
        lemma_with_models(merged(less), last.name@, c.total, cached_views(c.models@));
        assert(cached_views(c.models@)[i] == c.models@[i].view());
    }
}

} // verus!
