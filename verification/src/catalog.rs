//! Rankings of models that see and of models that reason.

use vstd::prelude::*;

use crate::benchmarks::{board_views, positive, is_positive, BoardInfo, BoardView};
use crate::decimal::{decimal_of, read_decimal};
use crate::json::{field, lemma_record_view, record_view, text_of, Json, JsonView};
use crate::text::{
    char_is_digit, char_views, contains, copied, copy_opt, ends_with, has, is_digit, lower_case, opt,
    part, split, split_words, splitted, starts_with, str_contains, str_ends_with, str_eq,
    str_starts_with, str_trim, str_trim_end_pat, to_chars, lowered, to_text, trim, trim_end_pat,
    words,
};

verus! {

pub const VLM_URL: &'static str = "http://opencompass.openxlab.space/assets/OpenVLM.json";

pub const LLM_URL: &'static str = "http://opencompass.oss-cn-shanghai.aliyuncs.com/dev-assets/hf-research/hf-academic.json";

/// How long a ranking is kept, in seconds.
pub const CATALOG_TTL_SECS: i64 = 604800;

// ---------------------------------------------------------------------------
// The rankings
// ---------------------------------------------------------------------------

/// Where the score of a ranking stands, and what it is divided by.
#[derive(Debug)]
pub struct VisionBoard {
    pub code: &'static str,
    pub field: &'static str,
    pub sub: &'static str,
    pub scale: u32,
}

pub struct VisionBoardView {
    pub code: Seq<char>,
    pub field: Seq<char>,
    pub sub: Seq<char>,
    pub scale: u32,
}

pub open spec fn vision_board(code: Seq<char>, field: Seq<char>, sub: Seq<char>, scale: u32) -> VisionBoardView {
    VisionBoardView { code, field, sub, scale }
}

pub open spec fn vision_table() -> Seq<VisionBoardView> {
    seq![
        vision_board("MMMU"@, "MMMU_VAL"@, "Overall"@, 100),
        vision_board("MMBench"@, "MMBench_TEST_EN_V11"@, "Overall"@, 100),
        vision_board("OCRBench"@, "OCRBench"@, "Final Score"@, 1000),
        vision_board("MMStar"@, "MMStar"@, "Overall"@, 100),
        vision_board("MathVista"@, "MathVista"@, "Overall"@, 100),
        vision_board("HallusionBench"@, "HallusionBench"@, "Overall"@, 100),
        vision_board("AI2D"@, "AI2D"@, "Overall"@, 100),
    ]
}

impl VisionBoard {
    pub open spec fn view(self) -> VisionBoardView {
        vision_board(self.code@, self.field@, self.sub@, self.scale)
    }
}

pub open spec fn vision_board_views(v: Seq<VisionBoard>) -> Seq<VisionBoardView> {
    Seq::new(v.len(), |i: int| v[i].view())
}

fn make_board(code: &'static str, field: &'static str, sub: &'static str, scale: u32) -> (r: VisionBoard)
    ensures
        r.view() == vision_board(code@, field@, sub@, scale),
{
    VisionBoard { code, field, sub, scale }
}

/// The rankings of models that see.
pub fn vlm_boards() -> (r: Vec<VisionBoard>)
    ensures
        vision_board_views(r@) == vision_table(),
{
    let r = vec![
        make_board("MMMU", "MMMU_VAL", "Overall", 100),
        make_board("MMBench", "MMBench_TEST_EN_V11", "Overall", 100),
        make_board("OCRBench", "OCRBench", "Final Score", 1000),
        make_board("MMStar", "MMStar", "Overall", 100),
        make_board("MathVista", "MathVista", "Overall", 100),
        make_board("HallusionBench", "HallusionBench", "Overall", 100),
        make_board("AI2D", "AI2D", "Overall", 100),
    ];
    assert(vision_board_views(r@) =~= vision_table());
    r
}

pub open spec fn reasoning_table() -> Seq<Seq<char>> {
    seq![
        "IFEval"@,
        "MMLU-Pro"@,
        "GPQA_diamond"@,
        "Math-500"@,
        "AIME2024"@,
        "LiveCodeBench"@,
        "HumanEval"@,
        "BBH"@,
    ]
}

pub open spec fn str_views(v: Seq<&str>) -> Seq<Seq<char>> {
    Seq::new(v.len(), |i: int| v[i]@)
}

/// The rankings of models that reason.
pub fn llm_boards() -> (r: Vec<&'static str>)
    ensures
        str_views(r@) == reasoning_table(),
{
    let r = vec![
        "IFEval",
        "MMLU-Pro",
        "GPQA_diamond",
        "Math-500",
        "AIME2024",
        "LiveCodeBench",
        "HumanEval",
        "BBH",
    ];
    assert(str_views(r@) =~= reasoning_table());
    r
}

/// The name of the mean of all rankings.
pub const GENERAL: &'static str = "Général";

pub open spec fn plain_board(code: Seq<char>) -> BoardView {
    BoardView { name: code, display_name: code, num_models: None, languages: 0 }
}

/// The mean of all rankings first, then each of them.
pub open spec fn infos_of(codes: Seq<Seq<char>>) -> Seq<BoardView> {
    seq![
        BoardView {
            name: GENERAL@,
            display_name: "Général (moyenne)"@,
            num_models: None,
            languages: 0,
        },
    ] + codes.map_values(|c: Seq<char>| plain_board(c))
}

fn board_infos(codes: &Vec<&'static str>) -> (r: Vec<BoardInfo>)
    ensures
        board_views(r@) == infos_of(str_views(codes@)),
{
    let ghost all = str_views(codes@);
    let ghost want = infos_of(all);
    let mut out: Vec<BoardInfo> = Vec::new();
    out.push(
        BoardInfo {
            name: GENERAL.to_owned(),
            display_name: "Général (moyenne)".to_owned(),
            num_models: None,
            languages: 0,
        },
    );
    assert(board_views(out@) =~= want.take(1));
    let mut i: usize = 0;
    while i < codes.len()
        invariant
            i <= codes.len(),
            all == str_views(codes@),
            want == infos_of(all),
            board_views(out@) == want.take(i + 1),
        decreases codes.len() - i,
    {
        let ghost before = board_views(out@);
        assert(all[i as int] == codes@[i as int]@);
        assert(want[i + 1] == plain_board(all[i as int]));
        out.push(
            BoardInfo {
                name: codes[i].to_owned(),
                display_name: codes[i].to_owned(),
                num_models: None,
                languages: 0,
            },
        );
        assert(board_views(out@) =~= before.push(want[i + 1]));
        i = i + 1;
        assert(board_views(out@) =~= want.take(i + 1));
    }
    assert(want.take(i + 1) =~= want);
    out
}

pub fn vision_boards() -> (r: Vec<BoardInfo>)
    ensures
        board_views(r@) == infos_of(vision_table().map_values(|b: VisionBoardView| b.code)),
{
    let boards = vlm_boards();
    let ghost want = vision_table().map_values(|b: VisionBoardView| b.code);
    let mut codes: Vec<&'static str> = Vec::new();
    let mut i: usize = 0;
    assert(str_views(codes@) =~= want.take(0));
    while i < boards.len()
        invariant
            i <= boards.len(),
            vision_board_views(boards@) == vision_table(),
            want == vision_table().map_values(|b: VisionBoardView| b.code),
            str_views(codes@) == want.take(i as int),
        decreases boards.len() - i,
    {
        let ghost before = str_views(codes@);
        assert(vision_board_views(boards@)[i as int] == vision_table()[i as int]);
        codes.push(boards[i].code);
        assert(str_views(codes@) =~= before.push(want[i as int]));
        i = i + 1;
        assert(str_views(codes@) =~= want.take(i as int));
    }
    assert(vision_board_views(boards@).len() == vision_table().len());
    assert(want.take(i as int) =~= want);
    board_infos(&codes)
}

pub fn reasoning_boards() -> (r: Vec<BoardInfo>)
    ensures
        board_views(r@) == infos_of(reasoning_table()),
{
    let codes = llm_boards();
    board_infos(&codes)
}

// ---------------------------------------------------------------------------
// Sizes of models
// ---------------------------------------------------------------------------

pub open spec fn is_number_char(c: char) -> bool {
    is_digit(c) || c == '.'
}

/// Where the digits and points that start at `i` end.
pub open spec fn number_end(s: Seq<char>, i: int) -> int
    decreases s.len() - i,
{
    if 0 <= i < s.len() && is_number_char(s[i]) {
        number_end(s, i + 1)
    } else {
        i
    }
}

fn end_of_number(s: &[char], from: usize) -> (r: usize)
    requires
        from <= s@.len(),
    ensures
        r == number_end(s@, from as int),
        from <= r <= s@.len(),
{
    let n: usize = s.len();
    let mut i: usize = from;
    while i < n && (char_is_digit(s[i]) || s[i] == '.')
        invariant
            from <= i <= n,
            n == s@.len(),
            number_end(s@, from as int) == number_end(s@, i as int),
        decreases n - i,
    {
        i = i + 1;
    }
    i
}

/// The number at the start of a size such as `8.29b`, in lower case.
pub open spec fn leading_params(low: Seq<char>) -> Option<Seq<char>> {
    let number = low.take(number_end(low, 0));
    if decimal_of(number) is Some && contains(low, "b"@) {
        Some(number)
    } else {
        None
    }
}

/// The number of a size that is in lower case already.
pub fn params_of_lower(low: &str) -> (r: Option<String>)
    ensures
        opt(r) == leading_params(low@),
{
    let c = to_chars(low);
    let end = end_of_number(c.as_slice(), 0);
    let number = part(c.as_slice(), 0, end);
    assert(number@ =~= low@.take(number_end(low@, 0)));
    if read_decimal(number).is_some() && str_contains(low, "b") {
        Some(to_text(number))
    } else {
        None
    }
}

/// How many billions of parameters a size such as `8.29B` tells of, as it writes them.
pub fn parse_params(s: &str) -> (r: Option<String>)
    ensures
        opt(r) == leading_params(lower_case(s@)),
{
    params_of_lower(lowered(s).as_str())
}

/// The first number with a `b` behind it, from `i` on.
pub open spec fn params_from(low: Seq<char>, i: int) -> Option<Seq<char>>
    decreases low.len() - i,
    via params_from_ends
{
    if i < 0 || i >= low.len() {
        None
    } else if is_digit(low[i]) {
        let j = number_end(low, i);
        if j < low.len() && low[j] == 'b' && decimal_of(low.subrange(i, j)) is Some {
            Some(low.subrange(i, j))
        } else {
            params_from(low, j)
        }
    } else {
        params_from(low, i + 1)
    }
}

proof fn lemma_number_end(s: Seq<char>, i: int)
    ensures
        number_end(s, i) >= i,
        0 <= i <= s.len() ==> number_end(s, i) <= s.len(),
    decreases s.len() - i,
{
    if 0 <= i < s.len() && is_number_char(s[i]) {
        lemma_number_end(s, i + 1);
    }
}

#[via_fn]
proof fn params_from_ends(low: Seq<char>, i: int) {
    if 0 <= i < low.len() && is_digit(low[i]) {
        lemma_number_end(low, i + 1);
    }
}

/// The number of a name that is in lower case already.
pub fn params_in_lower(low: &str) -> (r: Option<String>)
    ensures
        opt(r) == params_from(low@, 0),
{
    let c = to_chars(low);
    let s = c.as_slice();
    let n: usize = s.len();
    let mut i: usize = 0;
    while i < n
        invariant
            i <= n,
            n == low@.len(),
            s@ == low@,
            params_from(low@, 0) == params_from(low@, i as int),
        decreases n - i,
    {
        if char_is_digit(s[i]) {
            proof {
                lemma_number_end(low@, i + 1);
            }
            let j = end_of_number(s, i);
            if j < n && s[j] == 'b' {
                let number = part(s, i, j);
                if read_decimal(number).is_some() {
                    return Some(to_text(number));
                }
            }
            i = j;
        } else {
            i = i + 1;
        }
    }
    None
}

/// How many billions of parameters the name of a model tells of, as it writes them.
pub fn parse_params_from_name(name: &str) -> (r: Option<String>)
    ensures
        opt(r) == params_from(lower_case(name@), 0),
{
    params_in_lower(lowered(name).as_str())
}

pub open spec fn without_end(s: Seq<char>, end: Seq<char>) -> Seq<char> {
    if ends_with(s, end) {
        s.take(s.len() - end.len())
    } else {
        s
    }
}

/// The name of a model without that of the program that ran it.
pub open spec fn model_name(s: Seq<char>) -> Seq<char> {
    without_end(
        without_end(
            without_end(without_end(without_end(s, "-turbomind"@), "-vllm"@), "-lmdeploy"@),
            "-hf"@,
        ),
        "-pytorch"@,
    )
}

fn strip_end(s: &str, end: &str) -> (r: String)
    ensures
        r@ == without_end(s@, end@),
{
    if str_ends_with(s, end) {
        let c = to_chars(s);
        let n: usize = c.len();
        let m: usize = to_chars(end).len();
        let p = part(c.as_slice(), 0, n - m);
        assert(p@ =~= s@.take(s@.len() - end@.len()));
        to_text(p)
    } else {
        s.to_owned()
    }
}

/// The name under which a model is shown, and that under which it is looked for.
pub fn clean_llm_name(abbr: &str) -> (r: (String, String))
    ensures
        r.0@ == model_name(abbr@),
        r.1@ == model_name(abbr@),
{
    let a = strip_end(abbr, "-turbomind");
    let b = strip_end(a.as_str(), "-vllm");
    let c = strip_end(b.as_str(), "-lmdeploy");
    let d = strip_end(c.as_str(), "-hf");
    let e = strip_end(d.as_str(), "-pytorch");
    (e.clone(), e)
}

// ---------------------------------------------------------------------------
// What a page says
// ---------------------------------------------------------------------------

/// A score as a page writes it, and what it is divided by.
#[derive(Debug)]
pub struct RawScore {
    pub board: String,
    pub value: String,
    pub scale: u32,
}

#[derive(Debug)]
pub struct RawModel {
    pub name: String,
    pub hf: Option<String>,
    pub url: Option<String>,
    pub params_b: Option<String>,
    pub scores: Vec<RawScore>,
}

pub struct RawScoreView {
    pub board: Seq<char>,
    pub value: Seq<char>,
    pub scale: u32,
}

#[verifier::ext_equal]
pub struct RawModelView {
    pub name: Seq<char>,
    pub hf: Option<Seq<char>>,
    pub url: Option<Seq<char>>,
    pub params_b: Option<Seq<char>>,
    pub scores: Seq<RawScoreView>,
}

impl RawScore {
    pub open spec fn view(self) -> RawScoreView {
        RawScoreView { board: self.board@, value: self.value@, scale: self.scale }
    }
}

pub open spec fn raw_score_views(v: Seq<RawScore>) -> Seq<RawScoreView> {
    Seq::new(v.len(), |i: int| v[i].view())
}

impl RawModel {
    pub open spec fn view(self) -> RawModelView {
        RawModelView {
            name: self.name@,
            hf: opt(self.hf),
            url: opt(self.url),
            params_b: opt(self.params_b),
            scores: raw_score_views(self.scores@),
        }
    }
}

pub open spec fn raw_model_views(v: Seq<RawModel>) -> Seq<RawModelView> {
    Seq::new(v.len(), |i: int| v[i].view())
}

/// The text of the number at `sub` in `field`, where it is above zero.
pub open spec fn vision_score(v: JsonView, at: Seq<char>, sub: Seq<char>) -> Option<Seq<char>> {
    match field(v, at) {
        Some(b) => match field(b, sub) {
            Some(JsonView::Number(s)) => if is_positive(s) {
                Some(s)
            } else {
                None
            },
            _ => None,
        },
        None => None,
    }
}

/// The scores of a model, in the order of the table.
pub open spec fn vision_scores(v: JsonView, boards: Seq<VisionBoardView>) -> Seq<RawScoreView>
    decreases boards.len(),
{
    if boards.len() == 0 {
        Seq::empty()
    } else {
        let so_far = vision_scores(v, boards.drop_last());
        let b = boards.last();
        match vision_score(v, b.field, b.sub) {
            Some(s) => so_far.push(RawScoreView { board: b.code, value: s, scale: b.scale }),
            None => so_far,
        }
    }
}

/// The first of some texts that holds `p`.
pub open spec fn first_holding(v: Seq<Seq<char>>, p: Seq<char>) -> Option<Seq<char>>
    decreases v.len(),
{
    if v.len() == 0 {
        None
    } else if contains(v[0], p) {
        Some(v[0])
    } else {
        first_holding(v.skip(1), p)
    }
}

/// The first of some texts that starts with `p`.
pub open spec fn first_starting(v: Seq<Seq<char>>, p: Seq<char>) -> Option<Seq<char>>
    decreases v.len(),
{
    if v.len() == 0 {
        None
    } else if starts_with(v[0], p) {
        Some(v[0])
    } else {
        first_starting(v.skip(1), p)
    }
}

/// The repository that a description of a model points to.
pub open spec fn repository_in(method: Seq<char>) -> Option<Seq<char>> {
    match first_holding(words(method), "huggingface.co/"@) {
        Some(w) => {
            let parts = split(w, "huggingface.co/"@);
            if parts.len() > 1 {
                Some(trim_end_pat(parts[1], "/"@))
            } else {
                None
            }
        },
        None => None,
    }
}

pub open spec fn link_in(method: Seq<char>) -> Option<Seq<char>> {
    first_starting(words(method), "http"@)
}

pub open spec fn meta_text(v: JsonView, key: Seq<char>) -> Option<Seq<char>> {
    match field(v, "META"@) {
        Some(m) => match field(m, key) {
            Some(t) => text_of(t),
            None => None,
        },
        None => None,
    }
}

pub open spec fn method_of(v: JsonView) -> Seq<char> {
    match meta_text(v, "Method"@) {
        Some(s) => s,
        None => Seq::empty(),
    }
}

pub open spec fn vision_params(v: JsonView) -> Option<Seq<char>> {
    match meta_text(v, "Parameters"@) {
        Some(s) => leading_params(lower_case(s)),
        None => None,
    }
}

pub open spec fn vision_model(name: Seq<char>, v: JsonView) -> RawModelView {
    RawModelView {
        name,
        hf: repository_in(method_of(v)),
        url: link_in(method_of(v)),
        params_b: vision_params(v),
        scores: vision_scores(v, vision_table()),
    }
}

/// The models that have a score.
pub open spec fn vision_models(results: Seq<(Seq<char>, JsonView)>) -> Seq<RawModelView>
    decreases results.len(),
{
    if results.len() == 0 {
        Seq::empty()
    } else {
        let so_far = vision_models(results.drop_last());
        let m = vision_model(results.last().0, results.last().1);
        if m.scores.len() > 0 {
            so_far.push(m)
        } else {
            so_far
        }
    }
}

fn first_with(v: &Vec<Vec<char>>, p: &str) -> (r: Option<Vec<char>>)
    ensures
        match r {
            Some(w) => first_holding(char_views(v@), p@) == Some(w@),
            None => first_holding(char_views(v@), p@) is None,
        },
{
    let pat = to_chars(p);
    let ghost all = char_views(v@);
    let mut i: usize = 0;
    assert(all.skip(0) =~= all);
    while i < v.len()
        invariant
            i <= v.len(),
            pat@ == p@,
            all == char_views(v@),
            first_holding(all, p@) == first_holding(all.skip(i as int), p@),
        decreases v.len() - i,
    {
        assert(all.skip(i as int)[0] == v@[i as int]@);
        assert(all.skip(i as int).skip(1) =~= all.skip(i + 1));
        if has(v[i].as_slice(), pat.as_slice()) {
            return Some(copied(v[i].as_slice()));
        }
        i = i + 1;
    }
    None
}

fn first_link(v: &Vec<Vec<char>>, p: &str) -> (r: Option<String>)
    ensures
        opt(r) == first_starting(char_views(v@), p@),
{
    let ghost all = char_views(v@);
    let mut i: usize = 0;
    assert(all.skip(0) =~= all);
    while i < v.len()
        invariant
            i <= v.len(),
            all == char_views(v@),
            first_starting(all, p@) == first_starting(all.skip(i as int), p@),
        decreases v.len() - i,
    {
        assert(all.skip(i as int)[0] == v@[i as int]@);
        assert(all.skip(i as int).skip(1) =~= all.skip(i + 1));
        let w = to_text(v[i].as_slice());
        if str_starts_with(w.as_str(), p) {
            return Some(w);
        }
        i = i + 1;
    }
    None
}

/// The repository that a description of a model points to.
pub fn repository_of(method: &str) -> (r: Option<String>)
    ensures
        opt(r) == repository_in(method@),
{
    proof {
        reveal_strlit("huggingface.co/");
    }
    let list = split_words(to_chars(method).as_slice());
    match first_with(&list, "huggingface.co/") {
        Some(w) => {
            let parts = splitted(w.as_slice(), to_chars("huggingface.co/").as_slice());
            if parts.len() > 1 {
                assert(char_views(parts@)[1] == parts@[1]@);
                Some(str_trim_end_pat(to_text(parts[1].as_slice()).as_str(), "/"))
            } else {
                None
            }
        },
        None => None,
    }
}

/// The link that a description of a model holds.
pub fn link_of(method: &str) -> (r: Option<String>)
    ensures
        opt(r) == link_in(method@),
{
    let list = split_words(to_chars(method).as_slice());
    first_link(&list, "http")
}

fn read_meta(v: &Json, key: &str) -> (r: Option<String>)
    ensures
        opt(r) == meta_text(v.view(), key@),
{
    match v.get("META") {
        Some(m) => match m.get(key) {
            Some(t) => match t.as_text() {
                Some(s) => Some(s.to_owned()),
                None => None,
            },
            None => None,
        },
        None => None,
    }
}

fn read_score(v: &Json, at: &str, sub: &str) -> (r: Option<String>)
    ensures
        opt(r) == vision_score(v.view(), at@, sub@),
{
    match v.get(at) {
        Some(b) => match b.get(sub) {
            Some(Json::Number(s)) => if positive(s.as_str()) {
                Some(s.clone())
            } else {
                None
            },
            _ => None,
        },
        None => None,
    }
}

fn read_scores(v: &Json, boards: &Vec<VisionBoard>) -> (r: Vec<RawScore>)
    ensures
        raw_score_views(r@) == vision_scores(v.view(), vision_board_views(boards@)),
{
    let ghost all = vision_board_views(boards@);
    let mut out: Vec<RawScore> = Vec::new();
    let mut i: usize = 0;
    assert(raw_score_views(out@) =~= Seq::<RawScoreView>::empty());
    assert(all.take(0) =~= Seq::<VisionBoardView>::empty());
    while i < boards.len()
        invariant
            i <= boards.len(),
            all == vision_board_views(boards@),
            raw_score_views(out@) == vision_scores(v.view(), all.take(i as int)),
        decreases boards.len() - i,
    {
        assert(all.take(i + 1).drop_last() =~= all.take(i as int));
        assert(all.take(i + 1).last() == boards@[i as int].view());
        let b = &boards[i];
        let ghost before = raw_score_views(out@);
        if let Some(value) = read_score(v, b.field, b.sub) {
            let score = RawScore { board: b.code.to_owned(), value, scale: b.scale };
            let ghost sv = score.view();
            out.push(score);
            assert(raw_score_views(out@) =~= before.push(sv));
        }
        i = i + 1;
    }
    assert(all.take(i as int) =~= all);
    out
}

/// The models of the ranking of models that see.
pub fn read_vision(results: &Vec<(String, Json)>) -> (r: Vec<RawModel>)
    ensures
        raw_model_views(r@) == vision_models(record_view(results@)),
{
    let boards = vlm_boards();
    let ghost all = record_view(results@);
    proof {
        lemma_record_view(results@);
    }
    let mut out: Vec<RawModel> = Vec::new();
    let mut i: usize = 0;
    assert(raw_model_views(out@) =~= Seq::<RawModelView>::empty());
    assert(all.take(0) =~= Seq::<(Seq<char>, JsonView)>::empty());
    while i < results.len()
        invariant
            i <= results.len(),
            all == record_view(results@),
            all.len() == results@.len(),
            forall|k: int|
                0 <= k < results@.len() ==> (#[trigger] all[k]) == (
                    results@[k].0@,
                    results@[k].1.view(),
                ),
            vision_board_views(boards@) == vision_table(),
            raw_model_views(out@) == vision_models(all.take(i as int)),
        decreases results.len() - i,
    {
        assert(all.take(i + 1).drop_last() =~= all.take(i as int));
        assert(all.take(i + 1).last() == all[i as int]);
        let v = &results[i].1;
        let ghost before = raw_model_views(out@);
        let scores = read_scores(v, &boards);
        if scores.len() > 0 {
            let method = match read_meta(v, "Method") {
                Some(s) => s,
                None => String::new(),
            };
            assert(method@ =~= method_of(v.view()));
            let params_b = match read_meta(v, "Parameters") {
                Some(s) => parse_params(s.as_str()),
                None => None,
            };
            let m = RawModel {
                name: results[i].0.clone(),
                hf: repository_of(method.as_str()),
                url: link_of(method.as_str()),
                params_b,
                scores,
            };
            let ghost mv = m.view();
            assert(mv == vision_model(all[i as int].0, all[i as int].1));
            out.push(m);
            assert(raw_model_views(out@) =~= before.push(mv));
        } else {
            assert(raw_score_views(scores@).len() == 0);
        }
        i = i + 1;
    }
    assert(all.take(i as int) =~= all);
    out
}

/// The models of a page that ranks models that see; `None` where it is no such page.
pub fn fetch_vision(page: &Json) -> (r: Option<Vec<RawModel>>)
    ensures
        match r {
            Some(v) => field(page.view(), "results"@) matches Some(JsonView::Record(f))
                && raw_model_views(v@) == vision_models(f),
            None => !(field(page.view(), "results"@) matches Some(JsonView::Record(_))),
        },
{
    match page.get("results") {
        Some(Json::Record(f)) => Some(read_vision(f)),
        _ => None,
    }
}

// ---------------------------------------------------------------------------
// Models that reason
// ---------------------------------------------------------------------------

/// What stands beside the models in a ranking and is none.
pub open spec fn is_meta_key(k: Seq<char>) -> bool {
    k == "dataset"@ || k == "version"@ || k == "metric"@ || k == "mode"@
}

fn meta_key(k: &str) -> (r: bool)
    ensures
        r == is_meta_key(k@),
{
    str_eq(k, "dataset") || str_eq(k, "version") || str_eq(k, "metric") || str_eq(k, "mode")
}

/// The text of a score: a number, or a text that writes one. Anything else is no score.
pub open spec fn reasoning_score(v: JsonView) -> Option<Seq<char>> {
    match v {
        JsonView::Number(s) => Some(s),
        JsonView::Text(s) => if decimal_of(trim(s)) is Some {
            Some(trim(s))
        } else {
            None
        },
        _ => None,
    }
}

fn score_of(v: &Json) -> (r: Option<String>)
    ensures
        opt(r) == reasoning_score(v.view()),
{
    match v {
        Json::Number(s) => Some(s.clone()),
        Json::Text(s) => {
            let t = str_trim(s.as_str());
            if read_decimal(to_chars(t.as_str()).as_slice()).is_some() {
                Some(t)
            } else {
                None
            }
        },
        _ => None,
    }
}

/// A model of the ranking, with the name by which the ranking calls it.
pub struct KeyedView {
    pub key: Seq<char>,
    pub model: RawModelView,
}

pub open spec fn keyed_place(v: Seq<KeyedView>, key: Seq<char>) -> Option<int>
    decreases v.len(),
{
    if v.len() == 0 {
        None
    } else if v.last().key == key {
        Some(v.len() - 1)
    } else {
        keyed_place(v.drop_last(), key)
    }
}

pub open spec fn reasoning_model(key: Seq<char>) -> RawModelView {
    RawModelView {
        name: model_name(key),
        hf: Some(model_name(key)),
        url: None,
        params_b: params_from(lower_case(model_name(key)), 0),
        scores: Seq::empty(),
    }
}

/// A score joined to those that are known.
pub open spec fn with_score(
    known: Seq<KeyedView>,
    board: Seq<char>,
    key: Seq<char>,
    value: Seq<char>,
) -> Seq<KeyedView> {
    let score = RawScoreView { board, value, scale: 100 };
    match keyed_place(known, key) {
        Some(k) => known.update(
            k,
            KeyedView {
                key,
                model: RawModelView {
                    scores: known[k].model.scores.push(score),
                    ..known[k].model
                },
            },
        ),
        None => known.push(
            KeyedView {
                key,
                model: RawModelView { scores: seq![score], ..reasoning_model(key) },
            },
        ),
    }
}

pub open spec fn with_board(
    known: Seq<KeyedView>,
    board: Seq<char>,
    entries: Seq<(Seq<char>, JsonView)>,
) -> Seq<KeyedView>
    decreases entries.len(),
{
    if entries.len() == 0 {
        known
    } else {
        let so_far = with_board(known, board, entries.drop_last());
        let e = entries.last();
        if is_meta_key(e.0) {
            so_far
        } else {
            match reasoning_score(e.1) {
                Some(s) => with_score(so_far, board, e.0, s),
                None => so_far,
            }
        }
    }
}

/// The models of the first `n` rankings of a page.
pub open spec fn reasoning_models(page: JsonView, n: nat) -> Seq<KeyedView>
    decreases n,
{
    if n == 0 {
        Seq::empty()
    } else {
        let so_far = reasoning_models(page, (n - 1) as nat);
        let board = reasoning_table()[n - 1];
        match field(page, board) {
            Some(JsonView::Record(f)) => with_board(so_far, board, f),
            _ => so_far,
        }
    }
}

struct KeyedModel {
    key: String,
    model: RawModel,
}

impl KeyedModel {
    spec fn view(self) -> KeyedView {
        KeyedView { key: self.key@, model: self.model.view() }
    }
}

spec fn keyed_views(v: Seq<KeyedModel>) -> Seq<KeyedView> {
    Seq::new(v.len(), |i: int| v[i].view())
}

fn find_key(v: &Vec<KeyedModel>, key: &str) -> (r: Option<usize>)
    ensures
        match r {
            Some(k) => k < v@.len() && keyed_place(keyed_views(v@), key@) == Some(k as int)
                && v@[k as int].key@ == key@,
            None => keyed_place(keyed_views(v@), key@) is None,
        },
{
    let ghost all = keyed_views(v@);
    let mut i: usize = v.len();
    assert(all.take(i as int) =~= all);
    while i > 0
        invariant
            i <= v.len(),
            all == keyed_views(v@),
            keyed_place(all, key@) == keyed_place(all.take(i as int), key@),
        decreases i,
    {
        assert(all.take(i as int).drop_last() =~= all.take(i - 1));
        assert(all.take(i as int).last() == all[i - 1]);
        if str_eq(v[i - 1].key.as_str(), key) {
            return Some(i - 1);
        }
        i = i - 1;
    }
    None
}

fn push_score(m: &mut RawModel, score: RawScore)
    ensures
        final(m).view() == (RawModelView {
            scores: old(m).view().scores.push(score.view()),
            ..old(m).view()
        }),
{
    let ghost before = m.view();
    let ghost sv = score.view();
    m.scores.push(score);
    assert(raw_score_views(m.scores@) =~= before.scores.push(sv));
}

fn add_score_to(known: &mut Vec<KeyedModel>, board: &str, key: &str, value: String)
    ensures
        keyed_views(final(known)@) == with_score(keyed_views(old(known)@), board@, key@, value@),
{
    let ghost before = keyed_views(known@);
    let score = RawScore { board: board.to_owned(), value, scale: 100 };
    match find_key(known, key) {
        Some(k) => {
            let ghost all = known@;
            push_score(&mut known[k].model, score);
            assert(known@.len() == all.len());
            assert(keyed_views(known@) =~= before.update(k as int, known@[k as int].view()));
        },
        None => {
            let (name, hf) = clean_llm_name(key);
            let params_b = parse_params_from_name(name.as_str());
            let mut model = RawModel { name, hf: Some(hf), url: None, params_b, scores: Vec::new() };
            assert(model.view() =~= reasoning_model(key@));
            let ghost sv = score.view();
            push_score(&mut model, score);
            assert(model.view().scores =~= seq![sv]);
            let m = KeyedModel { key: key.to_owned(), model };
            let ghost mv = m.view();
            known.push(m);
            assert(keyed_views(known@) =~= before.push(mv));
        },
    }
}

fn add_board(known: &mut Vec<KeyedModel>, board: &str, entries: &Vec<(String, Json)>)
    ensures
        keyed_views(final(known)@) == with_board(
            keyed_views(old(known)@),
            board@,
            record_view(entries@),
        ),
{
    let ghost before = keyed_views(known@);
    let ghost all = record_view(entries@);
    proof {
        lemma_record_view(entries@);
    }
    let mut i: usize = 0;
    assert(all.take(0) =~= Seq::<(Seq<char>, JsonView)>::empty());
    while i < entries.len()
        invariant
            i <= entries.len(),
            all == record_view(entries@),
            all.len() == entries@.len(),
            forall|k: int|
                0 <= k < entries@.len() ==> (#[trigger] all[k]) == (
                    entries@[k].0@,
                    entries@[k].1.view(),
                ),
            keyed_views(known@) == with_board(before, board@, all.take(i as int)),
        decreases entries.len() - i,
    {
        assert(all.take(i + 1).drop_last() =~= all.take(i as int));
        assert(all.take(i + 1).last() == all[i as int]);
        let key = entries[i].0.as_str();
        if !meta_key(key) {
            if let Some(value) = score_of(&entries[i].1) {
                add_score_to(known, board, key, value);
            }
        }
        i = i + 1;
    }
    assert(all.take(i as int) =~= all);
}

/// The models of a page that ranks models that reason, in the order in which they are first
/// met; `None` where it is no such page.
pub fn fetch_reasoning(page: &Json) -> (r: Option<Vec<RawModel>>)
    ensures
        match r {
            Some(v) => page.view() is Record && raw_model_views(v@) == reasoning_models(
                page.view(),
                reasoning_table().len(),
            ).map_values(|k: KeyedView| k.model),
            None => !(page.view() is Record),
        },
{
    match page {
        Json::Record(_) => Some(read_reasoning(page)),
        _ => None,
    }
}

fn read_reasoning(page: &Json) -> (r: Vec<RawModel>)
    ensures
        raw_model_views(r@) == reasoning_models(page.view(), reasoning_table().len()).map_values(
            |k: KeyedView| k.model,
        ),
{
    let boards = llm_boards();
    let mut known: Vec<KeyedModel> = Vec::new();
    let mut i: usize = 0;
    assert(keyed_views(known@) =~= Seq::<KeyedView>::empty());
    while i < boards.len()
        invariant
            i <= boards.len(),
            str_views(boards@) == reasoning_table(),
            keyed_views(known@) == reasoning_models(page.view(), i as nat),
        decreases boards.len() - i,
    {
        assert(str_views(boards@)[i as int] == reasoning_table()[i as int]);
        if let Some(Json::Record(f)) = page.get(boards[i]) {
            add_board(&mut known, boards[i], f);
        }
        i = i + 1;
    }
    assert(str_views(boards@).len() == reasoning_table().len());
    let ghost all = keyed_views(known@);
    let ghost want = all.map_values(|k: KeyedView| k.model);
    let mut out: Vec<RawModel> = Vec::new();
    let mut j: usize = 0;
    assert(raw_model_views(out@) =~= want.take(0));
    while j < known.len()
        invariant
            j <= known.len(),
            all == keyed_views(known@),
            want == all.map_values(|k: KeyedView| k.model),
            raw_model_views(out@) == want.take(j as int),
        decreases known.len() - j,
    {
        let ghost before = raw_model_views(out@);
        let m = copy_raw(&known[j].model);
        assert(all[j as int] == known@[j as int].view());
        assert(m.view() == want[j as int]);
        out.push(m);
        assert(raw_model_views(out@) =~= before.push(want[j as int]));
        j = j + 1;
        assert(raw_model_views(out@) =~= want.take(j as int));
    }
    assert(want.take(j as int) =~= want);
    out
}

fn copy_raw(m: &RawModel) -> (r: RawModel)
    ensures
        r.view() == m.view(),
{
    let ghost all = raw_score_views(m.scores@);
    let mut scores: Vec<RawScore> = Vec::new();
    let mut i: usize = 0;
    assert(raw_score_views(scores@) =~= all.take(0));
    while i < m.scores.len()
        invariant
            i <= m.scores.len(),
            all == raw_score_views(m.scores@),
            raw_score_views(scores@) == all.take(i as int),
        decreases m.scores.len() - i,
    {
        let ghost before = raw_score_views(scores@);
        let s = &m.scores[i];
        scores.push(RawScore { board: s.board.clone(), value: s.value.clone(), scale: s.scale });
        assert(raw_score_views(scores@) =~= before.push(all[i as int]));
        i = i + 1;
        assert(raw_score_views(scores@) =~= all.take(i as int));
    }
    assert(all.take(i as int) =~= all);
    RawModel {
        name: m.name.clone(),
        hf: copy_opt(&m.hf),
        url: copy_opt(&m.url),
        params_b: copy_opt(&m.params_b),
        scores,
    }
}

// ---------------------------------------------------------------------------
// Ranks
// ---------------------------------------------------------------------------

/// The score of a model in a ranking, by a number that orders scores as they are ordered;
/// none where the model was not evaluated.
#[derive(Debug)]
pub struct RankedScore {
    pub board: String,
    pub key: Option<u64>,
    pub rank: Option<u32>,
    pub total: Option<u32>,
}

/// The first score of a model in a ranking that was given.
pub open spec fn key_in(scores: Seq<RankedScore>, board: Seq<char>) -> Option<u64>
    decreases scores.len(),
{
    if scores.len() == 0 {
        None
    } else {
        match key_in(scores.drop_last(), board) {
            Some(k) => Some(k),
            None => if scores.last().board@ == board {
                scores.last().key
            } else {
                None
            },
        }
    }
}

pub open spec fn is_first_in(scores: Seq<RankedScore>, k: int) -> bool {
    forall|j: int| 0 <= j < k ==> (#[trigger] scores[j]).board@ != scores[k].board@
}

/// The model at `j` stands before the one at `i`: its score is higher, or the same and it is
/// listed before.
pub open spec fn stands_before(a: Option<u64>, j: int, b: Option<u64>, i: int) -> bool {
    a is Some && b is Some && (a->Some_0 > b->Some_0 || (a->Some_0 == b->Some_0 && j < i))
}

/// How many of the first `n` models have a score in a ranking.
pub open spec fn evaluated(models: Seq<Vec<RankedScore>>, board: Seq<char>, n: nat) -> nat
    decreases n,
{
    if n == 0 {
        0
    } else {
        evaluated(models, board, (n - 1) as nat) + (if key_in(models[n - 1]@, board) is Some {
            1nat
        } else {
            0nat
        })
    }
}

/// How many of the first `n` models stand before the one at `i` in a ranking.
pub open spec fn ahead(models: Seq<Vec<RankedScore>>, board: Seq<char>, i: int, n: nat) -> nat
    decreases n,
{
    if n == 0 {
        0
    } else {
        ahead(models, board, i, (n - 1) as nat) + (if stands_before(
            key_in(models[n - 1]@, board),
            n - 1,
            key_in(models[i]@, board),
            i,
        ) {
            1nat
        } else {
            0nat
        })
    }
}

/// Where a score stands in its ranking, and out of how many; nothing changes where the model
/// was not evaluated there.
pub open spec fn ranked(models: Seq<Vec<RankedScore>>, i: int, k: int) -> (Option<u32>, Option<u32>) {
    let s = models[i]@[k];
    if is_first_in(models[i]@, k) && key_in(models[i]@, s.board@) is Some {
        (
            Some((ahead(models, s.board@, i, models.len()) + 1) as u32),
            Some(evaluated(models, s.board@, models.len()) as u32),
        )
    } else {
        (s.rank, s.total)
    }
}

fn find_key_in(scores: &Vec<RankedScore>, board: &str) -> (r: Option<u64>)
    ensures
        r == key_in(scores@, board@),
{
    let mut found: Option<u64> = None;
    let mut i: usize = 0;
    assert(scores@.take(0) =~= Seq::<RankedScore>::empty());
    while i < scores.len()
        invariant
            i <= scores.len(),
            found == key_in(scores@.take(i as int), board@),
        decreases scores.len() - i,
    {
        assert(scores@.take(i + 1).drop_last() =~= scores@.take(i as int));
        assert(scores@.take(i + 1).last() == scores@[i as int]);
        if found.is_none() && str_eq(scores[i].board.as_str(), board) {
            found = scores[i].key;
        }
        i = i + 1;
    }
    assert(scores@.take(i as int) =~= scores@);
    found
}

fn first_in(scores: &Vec<RankedScore>, k: usize) -> (r: bool)
    requires
        k < scores@.len(),
    ensures
        r == is_first_in(scores@, k as int),
{
    let mut j: usize = 0;
    while j < k
        invariant
            j <= k,
            k < scores@.len(),
            forall|m: int|
                0 <= m < j ==> (#[trigger] scores@[m]).board@ != scores@[k as int].board@,
        decreases k - j,
    {
        if str_eq(scores[j].board.as_str(), scores[k].board.as_str()) {
            return false;
        }
        j = j + 1;
    }
    true
}

proof fn lemma_counts(models: Seq<Vec<RankedScore>>, board: Seq<char>, i: int, n: nat)
    requires
        n <= models.len(),
        0 <= i < models.len(),
    ensures
        ahead(models, board, i, n) <= evaluated(models, board, n) <= n,
        i < n && key_in(models[i]@, board) is Some ==> ahead(models, board, i, n) < evaluated(
            models,
            board,
            n,
        ),
    decreases n,
{
    if n > 0 {
        lemma_counts(models, board, i, (n - 1) as nat);
    }
}

fn rank_one(models: &Vec<Vec<RankedScore>>, i: usize, k: usize) -> (r: RankedScore)
    requires
        models@.len() <= u32::MAX,
        i < models@.len(),
        k < models@[i as int]@.len(),
    ensures
        r.board@ == models@[i as int]@[k as int].board@,
        r.key == models@[i as int]@[k as int].key,
        (r.rank, r.total) == ranked(models@, i as int, k as int),
{
    let s = &models[i][k];
    let board = s.board.as_str();
    let mine = find_key_in(&models[i], board);
    if mine.is_none() || !first_in(&models[i], k) {
        return RankedScore {
            board: s.board.clone(),
            key: s.key,
            rank: s.rank,
            total: s.total,
        };
    }
    let mut before: u32 = 0;
    let mut total: u32 = 0;
    let mut j: usize = 0;
    while j < models.len()
        invariant
            j <= models.len(),
            models@.len() <= u32::MAX,
            i < models@.len(),
            mine == key_in(models@[i as int]@, board@),
            mine is Some,
            before == ahead(models@, board@, i as int, j as nat),
            total == evaluated(models@, board@, j as nat),
            before <= j,
            total <= j,
        decreases models.len() - j,
    {
        let other = find_key_in(&models[j], board);
        if let Some(x) = other {
            total = total + 1;
            if let Some(y) = mine {
                if x > y || (x == y && j < i) {
                    before = before + 1;
                }
            }
        }
        j = j + 1;
    }
    proof {
        lemma_counts(models@, board@, i as int, models@.len());
    }
    RankedScore { board: s.board.clone(), key: s.key, rank: Some(before + 1), total: Some(total) }
}

fn rank_model(models: &Vec<Vec<RankedScore>>, i: usize) -> (r: Vec<RankedScore>)
    requires
        models@.len() <= u32::MAX,
        i < models@.len(),
    ensures
        r@.len() == models@[i as int]@.len(),
        forall|k: int|
            0 <= k < r@.len() ==> (#[trigger] r@[k]).board@ == models@[i as int]@[k].board@
                && r@[k].key == models@[i as int]@[k].key && (r@[k].rank, r@[k].total) == ranked(
                models@,
                i as int,
                k,
            ),
{
    let mut out: Vec<RankedScore> = Vec::new();
    let mut k: usize = 0;
    while k < models[i].len()
        invariant
            i < models@.len(),
            models@.len() <= u32::MAX,
            k <= models@[i as int]@.len(),
            out@.len() == k,
            forall|m: int|
                0 <= m < k ==> (#[trigger] out@[m]).board@ == models@[i as int]@[m].board@
                    && out@[m].key == models@[i as int]@[m].key && (out@[m].rank, out@[m].total)
                    == ranked(models@, i as int, m),
        decreases models@[i as int]@.len() - k,
    {
        let s = rank_one(models, i, k);
        out.push(s);
        k = k + 1;
    }
    out
}

/// Gives each score its place in its ranking, the highest first.
pub fn assign_ranks(models: &Vec<Vec<RankedScore>>) -> (r: Vec<Vec<RankedScore>>)
    requires
        models@.len() <= u32::MAX,
    ensures
        r@.len() == models@.len(),
        forall|i: int|
            #![trigger r@[i]]
            0 <= i < r@.len() ==> r@[i]@.len() == models@[i]@.len(),
        forall|i: int, k: int|
            #![trigger r@[i]@[k]]
            0 <= i < r@.len() && 0 <= k < r@[i]@.len() ==> r@[i]@[k].board@
                == models@[i]@[k].board@ && r@[i]@[k].key == models@[i]@[k].key && (
                r@[i]@[k].rank,
                r@[i]@[k].total,
            ) == ranked(models@, i, k),
{
    let mut out: Vec<Vec<RankedScore>> = Vec::new();
    let mut i: usize = 0;
    while i < models.len()
        invariant
            i <= models@.len(),
            models@.len() <= u32::MAX,
            out@.len() == i,
            forall|m: int|
                #![trigger out@[m]]
                0 <= m < i ==> out@[m]@.len() == models@[m]@.len(),
            forall|m: int, k: int|
                #![trigger out@[m]@[k]]
                0 <= m < i && 0 <= k < out@[m]@.len() ==> out@[m]@[k].board@
                    == models@[m]@[k].board@ && out@[m]@[k].key == models@[m]@[k].key && (
                    out@[m]@[k].rank,
                    out@[m]@[k].total,
                ) == ranked(models@, m, k),
        decreases models.len() - i,
    {
        let ghost before = out@;
        let row = rank_model(models, i);
        out.push(row);
        assert forall|m: int, k: int|
            #![trigger out@[m]@[k]]
            0 <= m < i + 1 && 0 <= k < out@[m]@.len() implies out@[m]@[k].board@
            == models@[m]@[k].board@ && out@[m]@[k].key == models@[m]@[k].key && (
            out@[m]@[k].rank,
            out@[m]@[k].total,
        ) == ranked(models@, m, k) by {
            if m < i {
                assert(out@[m] == before[m]);
                assert(before[m]@[k].key == models@[m]@[k].key);
            } else {
                assert(out@[m] == row);
                assert(row@[k].key == models@[m]@[k].key);
            }
        }
        i = i + 1;
    }
    out
}

proof fn lemma_ahead_grows(
    models: Seq<Vec<RankedScore>>,
    board: Seq<char>,
    a: int,
    b: int,
    n: nat,
)
    requires
        n <= models.len(),
        0 <= a < models.len(),
        0 <= b < models.len(),
        stands_before(key_in(models[a]@, board), a, key_in(models[b]@, board), b),
    ensures
        ahead(models, board, a, n) <= ahead(models, board, b, n),
        a < n ==> ahead(models, board, a, n) < ahead(models, board, b, n),
    decreases n,
{
    if n > 0 {
        lemma_ahead_grows(models, board, a, b, (n - 1) as nat);
    }
}

/// In a ranking the places run from one to the number of models in it, and no two models
/// share one: of two, the one with the higher score stands before.
pub proof fn law_places_are_told_apart(
    models: Seq<Vec<RankedScore>>,
    board: Seq<char>,
    a: int,
    b: int,
)
    requires
        0 <= a < models.len(),
        0 <= b < models.len(),
        a != b,
        key_in(models[a]@, board) is Some,
        key_in(models[b]@, board) is Some,
    ensures
        ahead(models, board, a, models.len()) < evaluated(models, board, models.len()),
        ahead(models, board, a, models.len()) != ahead(models, board, b, models.len()),
        key_in(models[a]@, board)->Some_0 > key_in(models[b]@, board)->Some_0 ==> ahead(
            models,
            board,
            a,
            models.len(),
        ) < ahead(models, board, b, models.len()),
{
    lemma_counts(models, board, a, models.len());
    let x = key_in(models[a]@, board)->Some_0;
    let y = key_in(models[b]@, board)->Some_0;
    if x > y || (x == y && a < b) {
        lemma_ahead_grows(models, board, a, b, models.len());
    } else {
        lemma_ahead_grows(models, board, b, a, models.len());
    }
}

/// Every score that a model that sees has is read, under the ranking that it belongs to, and
/// every model that has one is listed.
pub proof fn law_every_vision_score_is_read(
    v: JsonView,
    boards: Seq<VisionBoardView>,
    results: Seq<(Seq<char>, JsonView)>,
)
    ensures
        vision_scores(v, boards) == boards.filter(
            |b: VisionBoardView| vision_score(v, b.field, b.sub) is Some,
        ).map_values(
            |b: VisionBoardView|
                RawScoreView {
                    board: b.code,
                    value: vision_score(v, b.field, b.sub)->Some_0,
                    scale: b.scale,
                },
        ),
        vision_models(results) == results.map_values(
            |r: (Seq<char>, JsonView)| vision_model(r.0, r.1),
        ).filter(|m: RawModelView| m.scores.len() > 0),
    decreases boards.len() + results.len(),
{
    reveal(Seq::filter);
    let f = |b: VisionBoardView| vision_score(v, b.field, b.sub) is Some;
    let g = |b: VisionBoardView|
        RawScoreView {
            board: b.code,
            value: vision_score(v, b.field, b.sub)->Some_0,
            scale: b.scale,
        };
    let read = |r: (Seq<char>, JsonView)| vision_model(r.0, r.1);
    let scored = |m: RawModelView| m.scores.len() > 0;
    if boards.len() > 0 {
        let less = boards.drop_last();
        law_every_vision_score_is_read(v, less, results);
        if f(boards.last()) {
            assert(boards.filter(f).map_values(g) =~= less.filter(f).map_values(g).push(
                g(boards.last()),
            ));
        }
    } else {
        assert(vision_scores(v, boards) =~= boards.filter(f).map_values(g));
        if results.len() > 0 {
            law_every_vision_score_is_read(v, boards, results.drop_last());
            assert(results.map_values(read).drop_last() =~= results.drop_last().map_values(read));
        } else {
            assert(vision_models(results) =~= results.map_values(read).filter(scored));
        }
    }
}

/// The number of parameters is the first number that a `b` follows.
pub proof fn law_the_size_stands_in_the_name(front: Seq<char>, n: Seq<char>, rest: Seq<char>)
    requires
        crate::text::all_digits(n),
        forall|i: int| 0 <= i < front.len() ==> !is_digit(#[trigger] front[i]),
    ensures
        params_from(front + n + seq!['b'] + rest, 0) == Some(n),
{
    lemma_params(front, n, rest, 0);
}

proof fn lemma_number_stops(s: Seq<char>, i: int, e: int)
    requires
        0 <= i <= e < s.len(),
        forall|k: int| i <= k < e ==> is_number_char(#[trigger] s[k]),
        !is_number_char(s[e]),
    ensures
        number_end(s, i) == e,
    decreases e - i,
{
    if i < e {
        assert(is_number_char(s[i]));
        lemma_number_stops(s, i + 1, e);
    }
}

proof fn lemma_params(front: Seq<char>, n: Seq<char>, rest: Seq<char>, i: int)
    requires
        crate::text::all_digits(n),
        0 <= i <= front.len(),
        forall|k: int| 0 <= k < front.len() ==> !is_digit(#[trigger] front[k]),
    ensures
        params_from(front + n + seq!['b'] + rest, i) == Some(n),
    decreases front.len() - i,
{
    let s = front + n + seq!['b'] + rest;
    if i < front.len() {
        assert(s[i] == front[i]);
        lemma_params(front, n, rest, i + 1);
    } else {
        let e = (front.len() + n.len()) as int;
        assert(s[i] == n[0]);
        assert forall|k: int| i <= k < e implies is_number_char(#[trigger] s[k]) by {
            assert(s[k] == n[k - i]);
            assert(is_digit(n[k - i]));
        }
        lemma_number_stops(s, i, e);
        assert(s.subrange(i, e) =~= n);
        crate::decimal::law_a_number_is_read_by_its_digits(n, n);
        assert(is_digit(n[0]));
    }
}

/// A model goes by its name, whatever it was run with.
pub proof fn law_what_ran_a_model_is_not_in_its_name(name: Seq<char>)
    requires
        model_name(name) == name,
    ensures
        model_name(name + "-turbomind"@) == name,
        model_name(name + "-vllm"@) == name,
        model_name(name + "-lmdeploy"@) == name,
        model_name(name + "-hf"@) == name,
        model_name(name + "-pytorch"@) == name,
{
    reveal_strlit("-turbomind");
    reveal_strlit("-vllm");
    reveal_strlit("-lmdeploy");
    reveal_strlit("-hf");
    reveal_strlit("-pytorch");
    lemma_kept_ends(name);
    lemma_end_goes(name, "-turbomind"@);
    lemma_end_goes(name, "-vllm"@);
    lemma_end_goes(name, "-lmdeploy"@);
    lemma_end_goes(name, "-hf"@);
    lemma_end_goes(name, "-pytorch"@);
    lemma_other_end_stays(name, "-vllm"@, "-turbomind"@);
    lemma_other_end_stays(name, "-lmdeploy"@, "-turbomind"@);
    lemma_other_end_stays(name, "-lmdeploy"@, "-vllm"@);
    lemma_other_end_stays(name, "-hf"@, "-turbomind"@);
    lemma_other_end_stays(name, "-hf"@, "-vllm"@);
    lemma_other_end_stays(name, "-hf"@, "-lmdeploy"@);
    lemma_other_end_stays(name, "-pytorch"@, "-turbomind"@);
    lemma_other_end_stays(name, "-pytorch"@, "-vllm"@);
    lemma_other_end_stays(name, "-pytorch"@, "-lmdeploy"@);
    lemma_other_end_stays(name, "-pytorch"@, "-hf"@);
}

proof fn lemma_kept_ends(name: Seq<char>)
    requires
        model_name(name) == name,
    ensures
        without_end(name, "-turbomind"@) == name,
        without_end(name, "-vllm"@) == name,
        without_end(name, "-lmdeploy"@) == name,
        without_end(name, "-hf"@) == name,
        without_end(name, "-pytorch"@) == name,
{
    let a = without_end(name, "-turbomind"@);
    let b = without_end(a, "-vllm"@);
    let c = without_end(b, "-lmdeploy"@);
    let d = without_end(c, "-hf"@);
    let e = without_end(d, "-pytorch"@);
    assert(e.len() <= d.len() <= c.len() <= b.len() <= a.len() <= name.len());
    assert(e == name);
    reveal_strlit("-turbomind");
    reveal_strlit("-vllm");
    reveal_strlit("-lmdeploy");
    reveal_strlit("-hf");
    reveal_strlit("-pytorch");
}

proof fn lemma_end_goes(name: Seq<char>, end: Seq<char>)
    ensures
        without_end(name + end, end) == name,
{
    let s = name + end;
    assert(s.subrange(s.len() - end.len(), s.len() - end.len() + end.len()) =~= end);
    assert(s.take(s.len() - end.len()) =~= name);
}

proof fn lemma_other_end_stays(name: Seq<char>, end: Seq<char>, other: Seq<char>)
    requires
        end.len() > 0,
        other.len() > 0,
        end.last() != other.last(),
    ensures
        without_end(name + end, other) == name + end,
{
    let s = name + end;
    assert(s.last() == end.last());
    if ends_with(s, other) {
        let k = s.len() - other.len();
        assert(s.subrange(k, k + other.len()).last() == s.last());
        assert(false);
    }
}

/// A score stands under a model's key.
pub open spec fn scored(v: Seq<KeyedView>, key: Seq<char>, score: RawScoreView) -> bool {
    exists|i: int|
        0 <= i < v.len() && (#[trigger] v[i]).key == key && v[i].model.scores.contains(score)
}

pub open spec fn grows(a: Seq<KeyedView>, b: Seq<KeyedView>) -> bool {
    &&& a.len() <= b.len()
    &&& forall|i: int|
        0 <= i < a.len() ==> a[i].key == (#[trigger] b[i]).key && a[i].model.name
            == b[i].model.name && a[i].model.scores.len() <= b[i].model.scores.len()
            && b[i].model.scores.take(a[i].model.scores.len() as int) == a[i].model.scores
}

proof fn lemma_grows_through(a: Seq<KeyedView>, b: Seq<KeyedView>, c: Seq<KeyedView>)
    requires
        grows(a, b),
        grows(b, c),
    ensures
        grows(a, c),
{
    assert forall|i: int| 0 <= i < a.len() implies a[i].key == (#[trigger] c[i]).key
        && a[i].model.name == c[i].model.name && a[i].model.scores.len() <= c[i].model.scores.len()
        && c[i].model.scores.take(a[i].model.scores.len() as int) == a[i].model.scores by {
        assert(a[i].key == b[i].key);
        let n = a[i].model.scores.len() as int;
        assert(c[i].model.scores.take(n) =~= b[i].model.scores.take(n)) by {
            assert forall|k: int| 0 <= k < n implies c[i].model.scores[k] == b[i].model.scores[k] by {
                assert(c[i].model.scores.take(b[i].model.scores.len() as int)[k]
                    == c[i].model.scores[k]);
            }
        }
    }
}

proof fn lemma_scored_on(a: Seq<KeyedView>, b: Seq<KeyedView>, key: Seq<char>, score: RawScoreView)
    requires
        grows(a, b),
        scored(a, key, score),
    ensures
        scored(b, key, score),
{
    let i = choose|i: int|
        0 <= i < a.len() && (#[trigger] a[i]).key == key && a[i].model.scores.contains(score);
    let k = choose|k: int| 0 <= k < a[i].model.scores.len() && a[i].model.scores[k] == score;
    assert(b[i].key == key);
    assert(b[i].model.scores.take(a[i].model.scores.len() as int)[k] == b[i].model.scores[k]);
    assert(b[i].model.scores[k] == score);
}

proof fn lemma_keyed_place(v: Seq<KeyedView>, key: Seq<char>)
    ensures
        keyed_place(v, key) matches Some(k) ==> 0 <= k < v.len() && v[k].key == key,
    decreases v.len(),
{
    if v.len() > 0 && v.last().key != key {
        lemma_keyed_place(v.drop_last(), key);
    }
}

proof fn lemma_with_score(known: Seq<KeyedView>, board: Seq<char>, key: Seq<char>, value: Seq<char>)
    ensures
        grows(known, with_score(known, board, key, value)),
        scored(
            with_score(known, board, key, value),
            key,
            (RawScoreView { board, value, scale: 100 }),
        ),
{
    let after = with_score(known, board, key, value);
    let score = RawScoreView { board, value, scale: 100 };
    lemma_keyed_place(known, key);
    assert forall|i: int| 0 <= i < known.len() implies known[i].key == (#[trigger] after[i]).key
        && known[i].model.name == after[i].model.name && known[i].model.scores.len()
        <= after[i].model.scores.len() && after[i].model.scores.take(
        known[i].model.scores.len() as int,
    ) == known[i].model.scores by {
        assert(after[i].model.scores.take(known[i].model.scores.len() as int)
            =~= known[i].model.scores);
    }
    match keyed_place(known, key) {
        Some(k) => {
            assert(after[k].model.scores.last() == score);
            assert(after[k].key == key);
        },
        None => {
            let k = known.len() as int;
            assert(after[k].model.scores[0] == score);
            assert(after[k].key == key);
        },
    }
}

proof fn lemma_with_board(
    known: Seq<KeyedView>,
    board: Seq<char>,
    entries: Seq<(Seq<char>, JsonView)>,
)
    ensures
        grows(known, with_board(known, board, entries)),
        forall|i: int|
            0 <= i < entries.len() && !is_meta_key((#[trigger] entries[i]).0) && reasoning_score(
                entries[i].1,
            ) is Some ==> scored(
                with_board(known, board, entries),
                entries[i].0,
                (RawScoreView {
                    board,
                    value: reasoning_score(entries[i].1)->Some_0,
                    scale: 100,
                }),
            ),
    decreases entries.len(),
{
    if entries.len() == 0 {
        assert forall|i: int| 0 <= i < known.len() implies known[i].model.scores.take(
            known[i].model.scores.len() as int,
        ) == (#[trigger] known[i]).model.scores by {
            assert(known[i].model.scores.take(known[i].model.scores.len() as int)
                =~= known[i].model.scores);
        }
    } else {
        let less = entries.drop_last();
        let e = entries.last();
        let before = with_board(known, board, less);
        let after = with_board(known, board, entries);
        lemma_with_board(known, board, less);
        if !is_meta_key(e.0) && reasoning_score(e.1) is Some {
            lemma_with_score(before, board, e.0, reasoning_score(e.1)->Some_0);
            lemma_grows_through(known, before, after);
        }
        assert forall|i: int|
            0 <= i < entries.len() && !is_meta_key((#[trigger] entries[i]).0) && reasoning_score(
                entries[i].1,
            ) is Some implies scored(
            after,
            entries[i].0,
            (RawScoreView { board, value: reasoning_score(entries[i].1)->Some_0, scale: 100 }),
        ) by {
            if i < less.len() {
                assert(less[i] == entries[i]);
                if !is_meta_key(e.0) && reasoning_score(e.1) is Some {
                    lemma_scored_on(
                        before,
                        after,
                        entries[i].0,
                        RawScoreView {
                            board,
                            value: reasoning_score(entries[i].1)->Some_0,
                            scale: 100,
                        },
                    );
                }
            }
        }
    }
}

/// No score of a model that reasons is lost: whatever a ranking of the table says of a model
/// stands under that model.
pub proof fn law_every_reasoning_score_is_read(
    page: JsonView,
    n: nat,
    b: int,
    entries: Seq<(Seq<char>, JsonView)>,
    i: int,
)
    requires
        0 <= b < n <= reasoning_table().len(),
        field(page, reasoning_table()[b]) == Some(JsonView::Record(entries)),
        0 <= i < entries.len(),
        !is_meta_key(entries[i].0),
        reasoning_score(entries[i].1) is Some,
    ensures
        scored(
            reasoning_models(page, n),
            entries[i].0,
            (RawScoreView {
                board: reasoning_table()[b],
                value: reasoning_score(entries[i].1)->Some_0,
                scale: 100,
            }),
        ),
    decreases n,
{
    let m = (n - 1) as nat;
    let before = reasoning_models(page, m);
    if b < m {
        law_every_reasoning_score_is_read(page, m, b, entries, i);
        if let Some(JsonView::Record(f)) = field(page, reasoning_table()[m as int]) {
            lemma_with_board(before, reasoning_table()[m as int], f);
            lemma_scored_on(
                before,
                reasoning_models(page, n),
                entries[i].0,
                RawScoreView {
                    board: reasoning_table()[b],
                    value: reasoning_score(entries[i].1)->Some_0,
                    scale: 100,
                },
            );
        }
    } else {
        lemma_with_board(before, reasoning_table()[b], entries);
    }
}

/// The link of a model is the first word that is one, and its repository stands in the first
/// word that names one.
pub proof fn law_the_first_word_counts(v: Seq<Seq<char>>, p: Seq<char>, k: int)
    requires
        0 <= k < v.len(),
    ensures
        contains(v[k], p) && (forall|i: int| 0 <= i < k ==> !contains(#[trigger] v[i], p))
            ==> first_holding(v, p) == Some(v[k]),
        starts_with(v[k], p) && (forall|i: int| 0 <= i < k ==> !starts_with(#[trigger] v[i], p))
            ==> first_starting(v, p) == Some(v[k]),
    decreases k,
{
    if k > 0 {
        let t = v.skip(1);
        law_the_first_word_counts(t, p, k - 1);
        assert(t[k - 1] == v[k]);
        if forall|i: int| 0 <= i < k ==> !contains(#[trigger] v[i], p) {
            assert(!contains(v[0], p));
            assert forall|i: int| 0 <= i < k - 1 implies !contains(#[trigger] t[i], p) by {
                assert(t[i] == v[i + 1]);
            }
        }
        if forall|i: int| 0 <= i < k ==> !starts_with(#[trigger] v[i], p) {
            assert(!starts_with(v[0], p));
            assert forall|i: int| 0 <= i < k - 1 implies !starts_with(#[trigger] t[i], p) by {
                assert(t[i] == v[i + 1]);
            }
        }
    }
}

proof fn lemma_evaluated_at_most(models: Seq<Vec<RankedScore>>, board: Seq<char>, n: nat)
    requires
        n <= models.len(),
    ensures
        evaluated(models, board, n) <= n,
    decreases n,
{
    if n > 0 {
        lemma_evaluated_at_most(models, board, (n - 1) as nat);
    }
}

/// A place in a ranking says how a model compares: of two models the one with the higher score
/// has the smaller place, no two share one, none is beyond the number of models, and that number
/// is told of each.
pub proof fn law_places_compare_models(
    models: Seq<Vec<RankedScore>>,
    a: int,
    k: int,
    b: int,
    l: int,
)
    requires
        models.len() <= u32::MAX,
        0 <= a < models.len(),
        0 <= b < models.len(),
        a != b,
        0 <= k < models[a]@.len(),
        0 <= l < models[b]@.len(),
        models[a]@[k].board@ == models[b]@[l].board@,
        is_first_in(models[a]@, k),
        is_first_in(models[b]@, l),
        key_in(models[a]@, models[a]@[k].board@) is Some,
        key_in(models[b]@, models[a]@[k].board@) is Some,
    ensures
        ranked(models, a, k).0 matches Some(r) && ranked(models, b, l).0 matches Some(q) && r != q
            && r >= 1 && ranked(models, a, k).1 == ranked(models, b, l).1 && (ranked(
            models,
            a,
            k,
        ).1 matches Some(t) && r <= t) && (key_in(models[a]@, models[a]@[k].board@)->Some_0
            > key_in(models[b]@, models[a]@[k].board@)->Some_0 ==> r < q),
{
    let board = models[a]@[k].board@;
    law_places_are_told_apart(models, board, a, b);
    law_places_are_told_apart(models, board, b, a);
    lemma_evaluated_at_most(models, board, models.len());
}

} // verus!
