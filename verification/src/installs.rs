//! The name under which a model is installed: which repository holds it, and which of its
//! quantizations is proposed.

use vstd::prelude::*;

use crate::order::{
    all_below, as_ints, is_order, is_text_before, law_sorting_orders_and_keeps,
    lemma_sorted_items, lemma_text_before_asymmetric, lemma_text_before_total,
    lemma_text_before_transitive, picked, sort_places, sorted_by, text_before, Ranked,
};
use crate::text::{
    all_digits, at, cat2, cat4, char_is_ascii_letter, char_is_digit, contains, ends_with, eq_ignore_ascii_case,
    is_ascii_letter, is_digit, last_index_of, lemma_rfind_upto, lower_case, matches_at, opt, part,
    rfind, same_ignoring_ascii_case, starts_with, str_contains, str_ends_with, str_eq,
    str_starts_with, to_chars, lowered, to_text, raised, upper_case,
};

verus! {

pub const HF_API: &'static str = "https://huggingface.co/api";

/// How long what was found is kept, in seconds.
pub const INSTALLS_TTL_SECS: i64 = 604800;

// ---------------------------------------------------------------------------
// Addresses
// ---------------------------------------------------------------------------

pub open spec fn is_unreserved(b: u8) -> bool {
    (65 <= b <= 90) || (97 <= b <= 122) || (48 <= b <= 57) || b == 45 || b == 95 || b == 46 || b
        == 126
}

/// A digit of a hexadecimal number, in upper case.
pub open spec fn upper_hex(n: int) -> char {
    if n < 10 {
        (('0' as u32 + n) as u32) as char
    } else {
        (('A' as u32 + (n - 10)) as u32) as char
    }
}

/// A byte as it stands in an address.
pub open spec fn url_byte(b: u8) -> Seq<char> {
    if is_unreserved(b) {
        seq![b as char]
    } else {
        seq!['%', upper_hex(b as int / 16), upper_hex(b as int % 16)]
    }
}

pub open spec fn url_bytes(s: Seq<u8>) -> Seq<char>
    decreases s.len(),
{
    if s.len() == 0 {
        Seq::empty()
    } else {
        url_bytes(s.drop_last()) + url_byte(s.last())
    }
}

/// A text as it stands in an address: its bytes, those that have a meaning there escaped.
pub open spec fn url_encoded(s: Seq<char>) -> Seq<char> {
    url_bytes(vstd::utf8::encode_utf8(s))
}

fn hex_upper(n: u8) -> (r: char)
    requires
        n < 16,
    ensures
        r == upper_hex(n as int),
{
    if n < 10 {
        (48 + n) as char
    } else {
        (55 + n) as char
    }
}

pub fn urlencode(s: &str) -> (r: String)
    ensures
        r@ == url_encoded(s@),
{
    let bytes = s.as_bytes();
    let ghost all = vstd::utf8::encode_utf8(s@);
    let mut out = String::new();
    let mut i: usize = 0;
    assert(out@ =~= Seq::<char>::empty());
    assert(all.take(0) =~= Seq::<u8>::empty());
    while i < bytes.len()
        invariant
            i <= bytes.len(),
            bytes@ == all,
            out@ == url_bytes(all.take(i as int)),
        decreases bytes.len() - i,
    {
        assert(all.take(i + 1).drop_last() =~= all.take(i as int));
        assert(all.take(i + 1).last() == bytes@[i as int]);
        let b = bytes[i];
        let ghost before = out@;
        if (65 <= b && b <= 90) || (97 <= b && b <= 122) || (48 <= b && b <= 57) || b == 45 || b
            == 95 || b == 46 || b == 126 {
            out.push(b as char);
            assert(out@ =~= before + url_byte(b));
        } else {
            out.push('%');
            out.push(hex_upper(b / 16));
            out.push(hex_upper(b % 16));
            assert(out@ =~= before + url_byte(b));
        }
        i = i + 1;
    }
    assert(all.take(i as int) =~= all);
    out
}

/// The last part of a path.
pub open spec fn last_part(s: Seq<char>) -> Seq<char> {
    match rfind(s, "/"@) {
        Some(i) => s.skip(i + 1),
        None => s,
    }
}

fn last_part_of(s: &str) -> (r: String)
    ensures
        r@ == last_part(s@),
{
    proof {
        reveal_strlit("/");
        lemma_rfind_upto(s@, "/"@, s@.len() as int);
    }
    let c = to_chars(s);
    let n: usize = c.len();
    match last_index_of(c.as_slice(), to_chars("/").as_slice()) {
        Some(i) => {
            let p = part(c.as_slice(), i + 1, n);
            assert(p@ =~= s@.skip(i + 1));
            to_text(p)
        },
        None => s.to_owned(),
    }
}

/// The name by which a model is looked for: without its organisation, in lower case.
pub fn search_base(hf: &str) -> (r: String)
    ensures
        r@ == lower_case(last_part(hf@)),
{
    lowered(last_part_of(hf).as_str())
}

/// Where the repositories that may hold a model are listed.
pub fn search_url(base: &str) -> (r: String)
    ensures
        r@ == HF_API@ + "/models?search="@ + url_encoded(base@)
            + "&filter=gguf&sort=downloads&direction=-1&limit=15"@,
{
    cat4(
        HF_API,
        "/models?search=",
        urlencode(base).as_str(),
        "&filter=gguf&sort=downloads&direction=-1&limit=15",
    )
}

/// Where the files of a repository are listed.
pub fn tree_url(repo: &str) -> (r: String)
    ensures
        r@ == HF_API@ + "/models/"@ + repo@ + "/tree/main?recursive=1"@,
{
    cat4(HF_API, "/models/", repo, "/tree/main?recursive=1")
}

// ---------------------------------------------------------------------------
// The repository
// ---------------------------------------------------------------------------

pub open spec fn is_word_char(c: char) -> bool {
    is_ascii_letter(c) || is_digit(c)
}

/// `needle` stands at `i` with no letter and no digit on either side.
pub open spec fn token_at(hay: Seq<char>, needle: Seq<char>, i: int) -> bool {
    matches_at(hay, needle, i) && (i == 0 || !is_word_char(hay[i - 1])) && (i + needle.len()
        >= hay.len() || !is_word_char(hay[i + needle.len()]))
}

/// `needle` stands somewhere as a whole token, not within a word.
pub open spec fn has_token(hay: Seq<char>, needle: Seq<char>) -> bool {
    needle.len() > 0 && exists|i: int| #[trigger] token_at(hay, needle, i)
}

fn word_char(c: char) -> (r: bool)
    ensures
        r == is_word_char(c),
{
    char_is_ascii_letter(c) || char_is_digit(c)
}

pub fn contains_token(hay: &str, needle: &str) -> (r: bool)
    ensures
        r == has_token(hay@, needle@),
{
    let h = to_chars(hay);
    let p = to_chars(needle);
    let n: usize = h.len();
    let m: usize = p.len();
    if m == 0 || m > n {
        return false;
    }
    let last: usize = n - m;
    let mut i: usize = 0;
    while i <= last
        invariant
            i <= last + 1,
            last == n - m,
            m <= n,
            m > 0,
            n == hay@.len(),
            m == needle@.len(),
            h@ == hay@,
            p@ == needle@,
            forall|k: int| 0 <= k < i ==> !(#[trigger] token_at(hay@, needle@, k)),
        decreases last + 1 - i,
    {
        if at(h.as_slice(), p.as_slice(), i) && (i == 0 || !word_char(h[i - 1])) && (i + m >= n
            || !word_char(h[i + m])) {
            assert(token_at(hay@, needle@, i as int));
            return true;
        }
        assert(!token_at(hay@, needle@, i as int));
        i = i + 1;
    }
    assert forall|k: int| !(#[trigger] token_at(hay@, needle@, k)) by {
        if 0 <= k <= last {
            assert(!token_at(hay@, needle@, k));
        }
    }
    false
}

/// A name that tells of a model made from another one.
pub open spec fn is_derivative(name: Seq<char>) -> bool {
    contains(name, "distill"@) || contains(name, "merge"@) || contains(name, "abliterat"@)
        || contains(name, "uncensored"@) || contains(name, "-ft-"@) || contains(name, "finetune"@)
}

fn derivative(name: &str) -> (r: bool)
    ensures
        r == is_derivative(name@),
{
    str_contains(name, "distill") || str_contains(name, "merge") || str_contains(name, "abliterat")
        || str_contains(name, "uncensored") || str_contains(name, "-ft-") || str_contains(
        name,
        "finetune",
    )
}

/// A repository that holds a model, by its name in lower case: it names the model as a whole
/// token, and is no derivative unless the model is one.
pub open spec fn holds_model(id: Seq<char>, base: Seq<char>) -> bool {
    has_token(id, base) && (is_derivative(base) || !is_derivative(id))
}

/// Whether a repository holds a model, both by their names in lower case.
pub fn repo_holds(id: &str, base: &str) -> (r: bool)
    ensures
        r == holds_model(id@, base@),
{
    contains_token(id, base) && (derivative(base) || !derivative(id))
}

/// A repository and how often it was downloaded.
#[derive(Debug)]
pub struct HfRepo {
    pub id: String,
    pub downloads: i64,
}

/// The repository among the first `n` that holds the model and was downloaded most; of
/// several the last.
pub open spec fn best_repo(repos: Seq<HfRepo>, base: Seq<char>, n: nat) -> Option<int>
    decreases n,
{
    if n == 0 {
        None
    } else {
        let so_far = best_repo(repos, base, (n - 1) as nat);
        let r = repos[n - 1];
        if holds_model(lower_case(r.id@), base) && (so_far is None || r.downloads
            >= repos[so_far->Some_0].downloads) {
            Some(n - 1)
        } else {
            so_far
        }
    }
}

/// The place of the repository that is chosen for a model.
pub fn choose_repo(repos: &Vec<HfRepo>, base: &str) -> (r: Option<usize>)
    ensures
        match r {
            Some(k) => k < repos@.len() && best_repo(repos@, base@, repos@.len()) == Some(k as int),
            None => best_repo(repos@, base@, repos@.len()) is None,
        },
{
    let mut best: Option<usize> = None;
    let mut i: usize = 0;
    while i < repos.len()
        invariant
            i <= repos.len(),
            match best {
                Some(k) => k < i && best_repo(repos@, base@, i as nat) == Some(k as int),
                None => best_repo(repos@, base@, i as nat) is None,
            },
        decreases repos.len() - i,
    {
        if repo_holds(lowered(repos[i].id.as_str()).as_str(), base) {
            let better = match best {
                Some(k) => repos[i].downloads >= repos[k].downloads,
                None => true,
            };
            if better {
                best = Some(i);
            }
        }
        i = i + 1;
    }
    best
}

/// Whatever repository is chosen holds the model, and none that holds it was downloaded more.
pub proof fn law_the_chosen_repository_holds_the_model(repos: Seq<HfRepo>, base: Seq<char>, n: nat)
    requires
        n <= repos.len(),
    ensures
        match best_repo(repos, base, n) {
            Some(k) => 0 <= k < n && holds_model(lower_case(repos[k].id@), base) && forall|i: int|
                0 <= i < n && holds_model(lower_case((#[trigger] repos[i]).id@), base)
                    ==> repos[i].downloads <= repos[k].downloads,
            None => forall|i: int|
                0 <= i < n ==> !holds_model(lower_case((#[trigger] repos[i]).id@), base),
        },
    decreases n,
{
    if n > 0 {
        law_the_chosen_repository_holds_the_model(repos, base, (n - 1) as nat);
    }
}

// ---------------------------------------------------------------------------
// Quantizations
// ---------------------------------------------------------------------------

/// A token that names a quantization, in upper case: `Q` or `IQ` with a digit behind it and
/// an underscore somewhere, or one of the floating formats.
pub open spec fn names_quant(t: Seq<char>) -> bool {
    if starts_with(t, "IQ"@) {
        t.len() > 2 && is_digit(t[2]) && contains(t, "_"@)
    } else if starts_with(t, "Q"@) {
        t.len() > 1 && is_digit(t[1]) && contains(t, "_"@)
    } else {
        t == "F16"@ || t == "BF16"@ || t == "F32"@ || t == "FP16"@ || t == "FP32"@ || t == "F16_K"@
    }
}

pub fn est_quant(token: &str) -> (r: bool)
    ensures
        r == names_quant(token@),
{
    let c = to_chars(token);
    if str_starts_with(token, "IQ") {
        c.len() > 2 && char_is_digit(c[2]) && str_contains(token, "_")
    } else if str_starts_with(token, "Q") {
        c.len() > 1 && char_is_digit(c[1]) && str_contains(token, "_")
    } else {
        str_eq(token, "F16") || str_eq(token, "BF16") || str_eq(token, "F32") || str_eq(
            token,
            "FP16",
        ) || str_eq(token, "FP32") || str_eq(token, "F16_K")
    }
}

pub open spec fn without_extension(s: Seq<char>) -> Seq<char> {
    if ends_with(s, ".GGUF"@) {
        s.take(s.len() - ".GGUF"@.len())
    } else {
        s
    }
}

/// A file name without the mark of a part that ends it, such as `-00001-OF-00003`: two
/// numbers. Anything else stays.
pub open spec fn without_part_mark(s: Seq<char>) -> Seq<char> {
    match rfind(s, "-OF-"@) {
        Some(i) => match rfind(s.take(i), "-"@) {
            Some(j) => if all_digits(s.subrange(j + 1, i)) && all_digits(s.skip(i + 4)) {
                s.take(j)
            } else {
                s
            },
            None => s,
        },
        None => s,
    }
}

fn only_digits(s: &[char]) -> (r: bool)
    ensures
        r == all_digits(s@),
{
    let mut i: usize = 0;
    while i < s.len()
        invariant
            i <= s.len(),
            forall|k: int| 0 <= k < i ==> is_digit(#[trigger] s@[k]),
        decreases s.len() - i,
    {
        if !char_is_digit(s[i]) {
            assert(!is_digit(s@[i as int]));
            return false;
        }
        i = i + 1;
    }
    s.len() > 0
}

/// The last token of `s` up to `end` that names a quantization; tokens end at `-` and `.`.
/// `i` is how far the token before `end` was read back.
pub open spec fn last_quant(s: Seq<char>, i: int, end: int) -> Option<Seq<char>>
    decreases i,
{
    if i < 0 || i > end || end > s.len() {
        None
    } else if i == 0 {
        if names_quant(s.subrange(0, end)) {
            Some(s.subrange(0, end))
        } else {
            None
        }
    } else if s[i - 1] == '-' || s[i - 1] == '.' {
        if names_quant(s.subrange(i, end)) {
            Some(s.subrange(i, end))
        } else {
            last_quant(s, i - 1, i - 1)
        }
    } else {
        last_quant(s, i - 1, end)
    }
}

/// The quantization in the name of a file, in upper case.
pub open spec fn quant_in(upper: Seq<char>) -> Option<Seq<char>> {
    let s = without_part_mark(without_extension(upper));
    last_quant(s, s.len() as int, s.len() as int)
}

/// The quantization in a file name that is in upper case already.
pub fn quant_of_upper(upper: &str) -> (r: Option<String>)
    ensures
        opt(r) == quant_in(upper@),
{
    proof {
        reveal_strlit(".GGUF");
        reveal_strlit("-OF-");
        reveal_strlit("-");
    }
    let c = to_chars(upper);
    let mut n: usize = c.len();
    if str_ends_with(upper, ".GGUF") {
        n = n - 5;
    }
    let ghost bare = without_extension(upper@);
    let head = part(c.as_slice(), 0, n);
    assert(head@ =~= bare);
    let mut end: usize = n;
    if let Some(i) = last_index_of(head, to_chars("-OF-").as_slice()) {
        proof {
            lemma_rfind_upto(bare, "-OF-"@, bare.len() as int);
        }
        let before = part(c.as_slice(), 0, i);
        assert(before@ =~= bare.take(i as int));
        match last_index_of(before, to_chars("-").as_slice()) {
            Some(j) => {
                proof {
                    lemma_rfind_upto(before@, "-"@, before@.len() as int);
                }
                let number = part(c.as_slice(), j + 1, i);
                let total = part(c.as_slice(), i + 4, n);
                assert(number@ =~= bare.subrange(j + 1, i as int));
                assert(total@ =~= bare.skip(i + 4));
                if only_digits(number) && only_digits(total) {
                    end = j;
                }
            },
            None => {},
        }
    }
    let s = part(c.as_slice(), 0, end);
    let ghost sv = without_part_mark(bare);
    assert(s@ =~= sv);
    let mut i: usize = end;
    let mut stop: usize = end;
    loop
        invariant
            i <= stop,
            stop <= s@.len(),
            s@ == sv,
            sv == without_part_mark(without_extension(upper@)),
            quant_in(upper@) == last_quant(sv, i as int, stop as int),
        decreases i,
    {
        if i == 0 {
            let t = to_text(part(s, 0, stop));
            return if est_quant(t.as_str()) {
                Some(t)
            } else {
                None
            };
        }
        if s[i - 1] == '-' || s[i - 1] == '.' {
            let t = to_text(part(s, i, stop));
            if est_quant(t.as_str()) {
                return Some(t);
            }
            stop = i - 1;
        }
        i = i - 1;
    }
}

pub fn quant_of(path: &str) -> (r: Option<String>)
    ensures
        opt(r) == quant_in(upper_case(last_part(path@))),
{
    quant_of_upper(raised(last_part_of(path).as_str()).as_str())
}

/// A file of a repository.
#[derive(Debug)]
pub struct HfTreeEntry {
    pub path: String,
    pub size: u64,
}

/// A quantization that a repository holds: all its parts together.
#[derive(Debug)]
pub struct GgufQuant {
    pub quant: String,
    pub bytes: u64,
    pub parts: u32,
}

pub struct QuantView {
    pub quant: Seq<char>,
    pub bytes: int,
    pub parts: int,
}

impl GgufQuant {
    pub open spec fn view(self) -> QuantView {
        QuantView { quant: self.quant@, bytes: self.bytes as int, parts: self.parts as int }
    }
}

pub open spec fn quant_views(v: Seq<GgufQuant>) -> Seq<QuantView> {
    Seq::new(v.len(), |i: int| v[i].view())
}

pub open spec fn quant_place(v: Seq<QuantView>, quant: Seq<char>) -> Option<int>
    decreases v.len(),
{
    if v.len() == 0 {
        None
    } else if v.last().quant == quant {
        Some(v.len() - 1)
    } else {
        quant_place(v.drop_last(), quant)
    }
}

/// The quantizations of some files, with the sizes of their parts added up.
pub open spec fn summed(files: Seq<HfTreeEntry>) -> Seq<QuantView>
    decreases files.len(),
{
    if files.len() == 0 {
        Seq::empty()
    } else {
        let so_far = summed(files.drop_last());
        let f = files.last();
        match quant_in(upper_case(last_part(f.path@))) {
            Some(q) => match quant_place(so_far, q) {
                Some(k) => so_far.update(
                    k,
                    QuantView {
                        quant: q,
                        bytes: so_far[k].bytes + f.size,
                        parts: so_far[k].parts + 1,
                    },
                ),
                None => so_far.push(QuantView { quant: q, bytes: f.size as int, parts: 1 }),
            },
            None => so_far,
        }
    }
}

pub open spec fn total_size(files: Seq<HfTreeEntry>) -> int
    decreases files.len(),
{
    if files.len() == 0 {
        0
    } else {
        total_size(files.drop_last()) + files.last().size
    }
}

/// The lighter one comes first, and of two that weigh the same the first by name.
pub open spec fn lighter(a: QuantView, b: QuantView) -> bool {
    a.bytes < b.bytes || (a.bytes == b.bytes && text_before(a.quant, b.quant))
}

pub open spec fn by_weight(files: Seq<HfTreeEntry>) -> Seq<QuantView> {
    sorted_by(summed(files), |a: QuantView, b: QuantView| lighter(a, b))
}

fn find_quant(v: &Vec<GgufQuant>, quant: &str) -> (r: Option<usize>)
    ensures
        match r {
            Some(k) => k < v@.len() && quant_place(quant_views(v@), quant@) == Some(k as int),
            None => quant_place(quant_views(v@), quant@) is None,
        },
{
    let ghost all = quant_views(v@);
    let mut i: usize = v.len();
    assert(all.take(i as int) =~= all);
    while i > 0
        invariant
            i <= v.len(),
            all == quant_views(v@),
            quant_place(all, quant@) == quant_place(all.take(i as int), quant@),
        decreases i,
    {
        assert(all.take(i as int).drop_last() =~= all.take(i - 1));
        assert(all.take(i as int).last() == all[i - 1]);
        if str_eq(v[i - 1].quant.as_str(), quant) {
            return Some(i - 1);
        }
        i = i - 1;
    }
    None
}

proof fn lemma_total_size_grows(files: Seq<HfTreeEntry>, n: int)
    requires
        0 <= n <= files.len(),
    ensures
        0 <= total_size(files.take(n)) <= total_size(files),
    decreases files.len() - n, n,
{
    if n < files.len() {
        lemma_total_size_grows(files, n + 1);
        assert(files.take(n + 1).drop_last() =~= files.take(n));
        lemma_total_size_positive(files.take(n));
    } else {
        assert(files.take(n) =~= files);
        lemma_total_size_positive(files);
    }
}

proof fn lemma_total_size_positive(files: Seq<HfTreeEntry>)
    ensures
        total_size(files) >= 0,
    decreases files.len(),
{
    if files.len() > 0 {
        lemma_total_size_positive(files.drop_last());
    }
}

fn sum_quants(files: &Vec<HfTreeEntry>) -> (r: Vec<GgufQuant>)
    requires
        total_size(files@) <= u64::MAX,
        files@.len() <= u32::MAX,
    ensures
        quant_views(r@) == summed(files@),
{
    let mut out: Vec<GgufQuant> = Vec::new();
    let mut i: usize = 0;
    assert(quant_views(out@) =~= Seq::<QuantView>::empty());
    assert(files@.take(0) =~= Seq::<HfTreeEntry>::empty());
    while i < files.len()
        invariant
            i <= files.len(),
            total_size(files@) <= u64::MAX,
            files@.len() <= u32::MAX,
            forall|k: int|
                0 <= k < out@.len() ==> (#[trigger] out@[k]).bytes <= total_size(
                    files@.take(i as int),
                ) && out@[k].parts <= i,
            quant_views(out@) == summed(files@.take(i as int)),
        decreases files.len() - i,
    {
        assert(files@.take(i + 1).drop_last() =~= files@.take(i as int));
        assert(files@.take(i + 1).last() == files@[i as int]);
        proof {
            lemma_total_size_grows(files@, i + 1);
            lemma_total_size_positive(files@.take(i as int));
        }
        let f = &files[i];
        let ghost before = quant_views(out@);
        if let Some(q) = quant_of(f.path.as_str()) {
            match find_quant(&out, q.as_str()) {
                Some(k) => {
                    assert(out@[k as int].bytes <= total_size(files@.take(i as int)));
                    let more = GgufQuant {
                        quant: q,
                        bytes: out[k].bytes + f.size,
                        parts: out[k].parts + 1,
                    };
                    let ghost mv = more.view();
                    out.set(k, more);
                    assert(quant_views(out@) =~= before.update(k as int, mv));
                },
                None => {
                    let first = GgufQuant { quant: q, bytes: f.size, parts: 1 };
                    let ghost fv = first.view();
                    out.push(first);
                    assert(quant_views(out@) =~= before.push(fv));
                },
            }
        }
        i = i + 1;
    }
    assert(files@.take(i as int) =~= files@);
    out
}

struct WeighedQuants<'a> {
    list: &'a Vec<GgufQuant>,
}

impl<'a> Ranked for WeighedQuants<'a> {
    closed spec fn count(&self) -> nat {
        self.list@.len()
    }

    closed spec fn comes_before(&self, a: int, b: int) -> bool {
        lighter(quant_views(self.list@)[a], quant_views(self.list@)[b])
    }

    fn is_before(&self, a: usize, b: usize) -> (r: bool) {
        let x = &self.list[a];
        let y = &self.list[b];
        x.bytes < y.bytes || (x.bytes == y.bytes && is_text_before(
            x.quant.as_str(),
            y.quant.as_str(),
        ))
    }
}

pub fn group_quants(files: &Vec<HfTreeEntry>) -> (r: Vec<GgufQuant>)
    requires
        total_size(files@) <= u64::MAX,
        files@.len() <= u32::MAX,
    ensures
        quant_views(r@) == by_weight(files@),
{
    let found = sum_quants(files);
    let n: usize = found.len();
    let ghost all = quant_views(found@);
    let list = WeighedQuants { list: &found };
    let order = sort_places(&list, n);
    proof {
        lemma_sorted_items(&list, all, |a: QuantView, b: QuantView| lighter(a, b));
    }
    let ghost want = picked(all, as_ints(order@));
    let mut out: Vec<GgufQuant> = Vec::new();
    let mut i: usize = 0;
    while i < n
        invariant
            i <= n,
            n == found@.len(),
            order@.len() == n,
            all == quant_views(found@),
            all_below(as_ints(order@), n as nat),
            want == picked(all, as_ints(order@)),
            quant_views(out@) == want.take(i as int),
        decreases n - i,
    {
        assert(0 <= as_ints(order@)[i as int] < n);
        let ghost before = quant_views(out@);
        let q = &found[order[i]];
        out.push(GgufQuant { quant: q.quant.clone(), bytes: q.bytes, parts: q.parts });
        assert(quant_views(out@) =~= before.push(want[i as int]));
        i = i + 1;
        assert(quant_views(out@) =~= want.take(i as int));
    }
    assert(want.take(i as int) =~= want);
    out
}

// ---------------------------------------------------------------------------
// What the groups are
// ---------------------------------------------------------------------------

/// The quantization of a file, where its name tells one.
pub open spec fn quant_name(f: HfTreeEntry) -> Option<Seq<char>> {
    quant_in(upper_case(last_part(f.path@)))
}

/// The size of all the files of a quantization.
pub open spec fn bytes_of_quant(files: Seq<HfTreeEntry>, quant: Seq<char>) -> int
    decreases files.len(),
{
    if files.len() == 0 {
        0
    } else {
        bytes_of_quant(files.drop_last(), quant) + if quant_name(files.last()) == Some(quant) {
            files.last().size as int
        } else {
            0
        }
    }
}

/// How many files a quantization has.
pub open spec fn parts_of_quant(files: Seq<HfTreeEntry>, quant: Seq<char>) -> int
    decreases files.len(),
{
    if files.len() == 0 {
        0
    } else {
        parts_of_quant(files.drop_last(), quant) + if quant_name(files.last()) == Some(quant) {
            1int
        } else {
            0
        }
    }
}

/// The group of a quantization.
pub open spec fn group_of(files: Seq<HfTreeEntry>, quant: Seq<char>) -> QuantView {
    QuantView {
        quant,
        bytes: bytes_of_quant(files, quant),
        parts: parts_of_quant(files, quant),
    }
}

/// `v` holds the group of each quantization of the files, once.
pub open spec fn groups_are(v: Seq<QuantView>, files: Seq<HfTreeEntry>) -> bool {
    &&& forall|g: QuantView| #[trigger]
        v.contains(g) <==> parts_of_quant(files, g.quant) > 0 && g == group_of(files, g.quant)
    &&& forall|i: int, j: int|
        0 <= i < j < v.len() ==> (#[trigger] v[i]).quant != (#[trigger] v[j]).quant
}

proof fn lemma_parts_positive(files: Seq<HfTreeEntry>, quant: Seq<char>)
    ensures
        parts_of_quant(files, quant) >= 0,
        parts_of_quant(files, quant) == 0 ==> bytes_of_quant(files, quant) == 0,
    decreases files.len(),
{
    if files.len() > 0 {
        lemma_parts_positive(files.drop_last(), quant);
    }
}

proof fn lemma_quant_place(v: Seq<QuantView>, quant: Seq<char>)
    ensures
        match quant_place(v, quant) {
            Some(k) => 0 <= k < v.len() && v[k].quant == quant,
            None => forall|k: int| 0 <= k < v.len() ==> (#[trigger] v[k]).quant != quant,
        },
    decreases v.len(),
{
    if v.len() > 0 && v.last().quant != quant {
        lemma_quant_place(v.drop_last(), quant);
        if quant_place(v, quant) is None {
            assert forall|k: int| 0 <= k < v.len() implies (#[trigger] v[k]).quant != quant by {
                if k < v.len() - 1 {
                    assert(v.drop_last()[k] == v[k]);
                }
            }
        }
    }
}

proof fn lemma_summed_groups(files: Seq<HfTreeEntry>)
    ensures
        groups_are(summed(files), files),
    decreases files.len(),
{
    let v = summed(files);
    if files.len() == 0 {
        assert forall|g: QuantView| #[trigger] v.contains(g) implies parts_of_quant(files, g.quant)
            > 0 && g == group_of(files, g.quant) by {}
    } else {
        let before = files.drop_last();
        let old = summed(before);
        lemma_summed_groups(before);
        let f = files.last();
        match quant_name(f) {
            None => {
                assert forall|g: QuantView| #[trigger]
                    v.contains(g) <==> parts_of_quant(files, g.quant) > 0 && g == group_of(
                        files,
                        g.quant,
                    ) by {
                    assert(old.contains(g) <==> parts_of_quant(before, g.quant) > 0 && g
                        == group_of(before, g.quant));
                }
            },
            Some(q) => {
                lemma_quant_place(old, q);
                lemma_parts_positive(before, q);
                let new = group_of(files, q);
                let at = match quant_place(old, q) {
                    Some(k) => k,
                    None => old.len() as int,
                };
                if quant_place(old, q) is Some {
                    assert(old.contains(old[at]));
                    assert(old[at] == group_of(before, q));
                } else {
                    if parts_of_quant(before, q) > 0 {
                        assert(old.contains(group_of(before, q)));
                        let k = choose|k: int| 0 <= k < old.len() && old[k] == group_of(before, q);
                        assert(old[k].quant == q);
                    }
                }
                assert(v[at] == new);
                assert forall|k: int| 0 <= k < v.len() && k != at implies (#[trigger] v[k]) == old[k]
                    && old[k].quant != q by {}
                assert forall|g: QuantView| #[trigger]
                    v.contains(g) <==> parts_of_quant(files, g.quant) > 0 && g == group_of(
                        files,
                        g.quant,
                    ) by {
                    assert(old.contains(g) <==> parts_of_quant(before, g.quant) > 0 && g
                        == group_of(before, g.quant));
                    if g.quant == q {
                        if v.contains(g) {
                            let k = choose|k: int| 0 <= k < v.len() && v[k] == g;
                            assert(k == at);
                        }
                        if g == new {
                            assert(v[at] == g);
                        }
                    } else {
                        if v.contains(g) {
                            let k = choose|k: int| 0 <= k < v.len() && v[k] == g;
                            assert(k != at);
                            assert(old[k] == g);
                        }
                        if old.contains(g) {
                            let k = choose|k: int| 0 <= k < old.len() && old[k] == g;
                            assert(k != at);
                            assert(v[k] == g);
                        }
                    }
                }
            },
        }
    }
}

/// A full order of groups: by weight, by name, by parts.
spec fn not_heavier(a: QuantView, b: QuantView) -> bool {
    lighter(a, b) || (a.bytes == b.bytes && a.quant == b.quant && a.parts <= b.parts)
}

proof fn lemma_lighter_is_an_order()
    ensures
        is_order(|a: QuantView, b: QuantView| lighter(a, b)),
        vstd::relations::total_ordering(|a: QuantView, b: QuantView| not_heavier(a, b)),
{
    let less = |a: QuantView, b: QuantView| lighter(a, b);
    let le = |a: QuantView, b: QuantView| not_heavier(a, b);
    assert forall|a: QuantView, b: QuantView| #[trigger] less(a, b) implies !less(b, a) by {
        if a.bytes == b.bytes {
            lemma_text_before_asymmetric(a.quant, b.quant);
        }
    }
    assert forall|a: QuantView, b: QuantView, c: QuantView|
        #![trigger less(a, b), less(b, c)]
        !less(a, b) && !less(b, c) implies !less(a, c) by {
        lemma_text_before_total(a.quant, b.quant);
        lemma_text_before_total(b.quant, c.quant);
        if text_before(a.quant, c.quant) {
            if text_before(b.quant, a.quant) {
                lemma_text_before_transitive(b.quant, a.quant, c.quant);
            }
            if text_before(c.quant, b.quant) {
                lemma_text_before_transitive(a.quant, c.quant, b.quant);
            }
        }
    }
    assert forall|a: QuantView, b: QuantView| #[trigger]
        le(a, b) && #[trigger] le(b, a) implies a == b by {
        if less(a, b) {
            assert(!less(b, a));
        }
        if less(b, a) {
            assert(!less(a, b));
        }
    }
    assert forall|a: QuantView, b: QuantView, c: QuantView| #[trigger]
        le(a, b) && #[trigger] le(b, c) implies le(a, c) by {
        if text_before(a.quant, b.quant) && text_before(b.quant, c.quant) {
            lemma_text_before_transitive(a.quant, b.quant, c.quant);
        }
    }
    assert forall|a: QuantView, b: QuantView| #[trigger] le(a, b) || le(b, a) by {
        lemma_text_before_total(a.quant, b.quant);
    }
}

proof fn lemma_same_members(a: Seq<QuantView>, b: Seq<QuantView>)
    requires
        a.to_multiset() == b.to_multiset(),
    ensures
        a.len() == b.len(),
        forall|g: QuantView| #[trigger] a.contains(g) <==> b.contains(g),
{
    a.to_multiset_ensures();
    b.to_multiset_ensures();
    assert forall|g: QuantView| #[trigger] a.contains(g) <==> b.contains(g) by {
        vstd::seq_lib::to_multiset_contains(a, g);
        vstd::seq_lib::to_multiset_contains(b, g);
    }
}

/// The groups of some files are those of their quantizations, each once, with the sizes and
/// the number of its files, from the lightest to the heaviest and by name where two weigh the
/// same.
pub proof fn law_groups_are_exact_and_sorted(files: Seq<HfTreeEntry>)
    ensures
        groups_are(by_weight(files), files),
        forall|i: int, j: int|
            0 <= i < j < by_weight(files).len() ==> lighter(
                #[trigger] by_weight(files)[i],
                #[trigger] by_weight(files)[j],
            ),
{
    let less = |a: QuantView, b: QuantView| lighter(a, b);
    let all = summed(files);
    let r = by_weight(files);
    lemma_summed_groups(files);
    lemma_lighter_is_an_order();
    law_sorting_orders_and_keeps(all, less);
    lemma_same_members(r, all);
    lemma_distinct_stays(all, r, files);
    assert forall|i: int, j: int| 0 <= i < j < r.len() implies lighter(
        #[trigger] r[i],
        #[trigger] r[j],
    ) by {
        assert(!less(r[j], r[i]));
        lemma_text_before_total(r[i].quant, r[j].quant);
    }
}

proof fn lemma_distinct_stays(a: Seq<QuantView>, b: Seq<QuantView>, files: Seq<HfTreeEntry>)
    requires
        a.to_multiset() == b.to_multiset(),
        groups_are(a, files),
    ensures
        groups_are(b, files),
        b.no_duplicates(),
{
    lemma_same_members(a, b);
    assert(a.no_duplicates());
    a.lemma_multiset_has_no_duplicates();
    assert forall|g: QuantView| #[trigger] b.to_multiset().contains(g) implies b.to_multiset().count(g)
        == 1 by {}
    b.lemma_multiset_has_no_duplicates_conv();
    assert forall|g: QuantView| #[trigger]
        b.contains(g) <==> parts_of_quant(files, g.quant) > 0 && g == group_of(files, g.quant) by {
        assert(a.contains(g) <==> b.contains(g));
    }
    assert forall|i: int, j: int| 0 <= i < j < b.len() implies (#[trigger] b[i]).quant != (
    #[trigger] b[j]).quant by {
        assert(b.contains(b[i]));
        assert(b.contains(b[j]));
        assert(b[i] != b[j]);
    }
}

proof fn lemma_without_one(files: Seq<HfTreeEntry>, i: int, quant: Seq<char>)
    requires
        0 <= i < files.len(),
    ensures
        bytes_of_quant(files, quant) == bytes_of_quant(files.remove(i), quant) + if quant_name(
            files[i],
        ) == Some(quant) {
            files[i].size as int
        } else {
            0
        },
        parts_of_quant(files, quant) == parts_of_quant(files.remove(i), quant) + if quant_name(
            files[i],
        ) == Some(quant) {
            1int
        } else {
            0
        },
    decreases files.len(),
{
    if i == files.len() - 1 {
        assert(files.remove(i) =~= files.drop_last());
    } else {
        let rest = files.drop_last();
        lemma_without_one(rest, i, quant);
        assert(files.remove(i).drop_last() =~= rest.remove(i));
        assert(files.remove(i).last() == files.last());
    }
}

proof fn lemma_groups_forget_the_order(a: Seq<HfTreeEntry>, b: Seq<HfTreeEntry>, quant: Seq<char>)
    requires
        a.to_multiset() == b.to_multiset(),
    ensures
        group_of(a, quant) == group_of(b, quant),
    decreases a.len(),
{
    a.to_multiset_ensures();
    b.to_multiset_ensures();
    if a.len() > 0 {
        let x = a.last();
        assert(a.contains(x));
        assert(b.to_multiset().count(x) > 0);
        assert(b.contains(x));
        let i = choose|i: int| 0 <= i < b.len() && b[i] == x;
        assert(a.drop_last() =~= a.remove(a.len() - 1));
        assert(a.drop_last().to_multiset() =~= b.remove(i).to_multiset());
        lemma_groups_forget_the_order(a.drop_last(), b.remove(i), quant);
        lemma_without_one(b, i, quant);
    }
}

/// The groups do not depend on the order of the files.
pub proof fn law_the_order_of_the_files_makes_no_difference(
    a: Seq<HfTreeEntry>,
    b: Seq<HfTreeEntry>,
)
    requires
        a.to_multiset() == b.to_multiset(),
    ensures
        by_weight(a) == by_weight(b),
{
    let le = |x: QuantView, y: QuantView| not_heavier(x, y);
    let (ra, rb) = (by_weight(a), by_weight(b));
    law_groups_are_exact_and_sorted(a);
    law_groups_are_exact_and_sorted(b);
    lemma_lighter_is_an_order();
    assert forall|g: QuantView| #[trigger] ra.contains(g) <==> rb.contains(g) by {
        lemma_groups_forget_the_order(a, b, g.quant);
    }
    assert(ra.no_duplicates());
    assert(rb.no_duplicates());
    ra.to_multiset_ensures();
    rb.to_multiset_ensures();
    ra.lemma_multiset_has_no_duplicates();
    rb.lemma_multiset_has_no_duplicates();
    assert(ra.to_multiset() =~= rb.to_multiset()) by {
        assert forall|g: QuantView| #[trigger]
            ra.to_multiset().count(g) == rb.to_multiset().count(g) by {
            assert(ra.contains(g) <==> rb.contains(g));
            assert(ra.to_multiset().contains(g) <==> rb.to_multiset().contains(g));
        }
    }
    vstd::seq_lib::lemma_sorted_unique(ra, rb, le);
}

// ---------------------------------------------------------------------------
// What is proposed
// ---------------------------------------------------------------------------

/// The quantizations in the order in which they are proposed.
pub open spec fn preferred() -> Seq<Seq<char>> {
    seq!["Q8_0"@, "Q6_K"@, "Q5_K_M"@, "Q5_0"@, "Q4_K_M"@, "Q4_0"@, "F16"@, "BF16"@]
}

pub open spec fn offers(quants: Seq<QuantView>, name: Seq<char>) -> bool {
    exists|i: int|
        0 <= i < quants.len() && same_ignoring_ascii_case((#[trigger] quants[i]).quant, name)
}

/// The first quantization from the list of preferences on that the repository holds; else
/// its lightest.
pub open spec fn proposed_from(quants: Seq<QuantView>, from: int) -> Option<Seq<char>>
    decreases preferred().len() - from,
{
    if 0 <= from < preferred().len() {
        if offers(quants, preferred()[from]) {
            Some(preferred()[from])
        } else {
            proposed_from(quants, from + 1)
        }
    } else if quants.len() > 0 {
        Some(quants[0].quant)
    } else {
        None
    }
}

fn does_offer(quants: &Vec<GgufQuant>, name: &str) -> (r: bool)
    ensures
        r == offers(quant_views(quants@), name@),
{
    let mut i: usize = 0;
    while i < quants.len()
        invariant
            i <= quants.len(),
            forall|k: int|
                0 <= k < i ==> !same_ignoring_ascii_case(
                    (#[trigger] quant_views(quants@)[k]).quant,
                    name@,
                ),
        decreases quants.len() - i,
    {
        if eq_ignore_ascii_case(quants[i].quant.as_str(), name) {
            assert(same_ignoring_ascii_case(quant_views(quants@)[i as int].quant, name@));
            return true;
        }
        i = i + 1;
    }
    false
}

pub fn proposed_quant(quants: &Vec<GgufQuant>) -> (r: Option<String>)
    ensures
        opt(r) == proposed_from(quant_views(quants@), 0),
{
    let names = vec!["Q8_0", "Q6_K", "Q5_K_M", "Q5_0", "Q4_K_M", "Q4_0", "F16", "BF16"];
    let ghost v = quant_views(quants@);
    let mut i: usize = 0;
    while i < names.len()
        invariant
            i <= names.len(),
            names@.len() == preferred().len(),
            forall|k: int| 0 <= k < names@.len() ==> (#[trigger] names@[k])@ == preferred()[k],
            v == quant_views(quants@),
            proposed_from(v, 0) == proposed_from(v, i as int),
        decreases names.len() - i,
    {
        assert(names@[i as int]@ == preferred()[i as int]);
        if does_offer(quants, names[i]) {
            return Some(names[i].to_owned());
        }
        i = i + 1;
    }
    if quants.len() > 0 {
        assert(v[0] == quants@[0].view());
        Some(quants[0].quant.clone())
    } else {
        None
    }
}

/// How a model is installed.
#[derive(Debug)]
pub struct InstallInfo {
    pub hf: String,
    pub gguf_repo: Option<String>,
    pub quant: Option<String>,
    pub quants: Vec<GgufQuant>,
    pub ollama: Option<String>,
    pub lmstudio: Option<String>,
}

/// Nothing is known of how the model is installed.
pub fn not_installable(hf: &str) -> (r: InstallInfo)
    ensures
        r.hf@ == hf@,
        r.gguf_repo is None && r.quant is None && r.ollama is None && r.lmstudio is None,
        r.quants@.len() == 0,
{
    InstallInfo {
        hf: hf.to_owned(),
        gguf_repo: None,
        quant: None,
        quants: Vec::new(),
        ollama: None,
        lmstudio: None,
    }
}

/// A file that holds a model.
pub fn is_gguf(path: &str) -> (r: bool)
    ensures
        r == ends_with(lower_case(path@), ".gguf"@),
{
    str_ends_with(lowered(path).as_str(), ".gguf")
}

/// The name that is pulled: the repository, and the quantization where it holds several
/// files.
pub open spec fn pull_name(repo: Seq<char>, files: nat, quant: Option<Seq<char>>) -> Option<
    Seq<char>,
> {
    if files == 0 {
        None
    } else if files == 1 {
        Some("hf.co/"@ + repo)
    } else {
        match quant {
            Some(q) => Some("hf.co/"@ + repo + ":"@ + q),
            None => Some("hf.co/"@ + repo),
        }
    }
}

/// How a model is installed from a repository with these files, all of which hold models.
pub fn try_fetch(hf: &str, repo: &str, ggufs: &Vec<HfTreeEntry>) -> (r: InstallInfo)
    requires
        total_size(ggufs@) <= u64::MAX,
        ggufs@.len() <= u32::MAX,
    ensures
        r.hf@ == hf@,
        opt(r.gguf_repo) == Some(repo@),
        opt(r.lmstudio) == Some(repo@),
        quant_views(r.quants@) == by_weight(ggufs@),
        opt(r.quant) == proposed_from(by_weight(ggufs@), 0),
        opt(r.ollama) == pull_name(repo@, ggufs@.len(), proposed_from(by_weight(ggufs@), 0)),
{
    let quants = group_quants(ggufs);
    let quant = proposed_quant(&quants);
    let n: usize = ggufs.len();
    let ollama = if n == 0 {
        None
    } else if n == 1 {
        Some(cat2("hf.co/", repo))
    } else {
        match &quant {
            Some(q) => Some(cat4("hf.co/", repo, ":", q.as_str())),
            None => Some(cat2("hf.co/", repo)),
        }
    };
    InstallInfo {
        hf: hf.to_owned(),
        gguf_repo: Some(repo.to_owned()),
        quant,
        quants,
        ollama,
        lmstudio: Some(repo.to_owned()),
    }
}

/// What is kept of a model.
#[derive(Debug)]
pub struct KeptInstall {
    pub fetched_at: i64,
    pub has_repo: bool,
    pub has_quants: bool,
}

/// Whether a model is looked for: nothing is kept of it, it is kept without the list of its
/// quantizations, or it was kept too long.
pub fn needs_lookup(kept: &Option<KeptInstall>, now: i64) -> (r: bool)
    ensures
        r == (match kept {
            None => true,
            Some(k) => (k.has_repo && !k.has_quants) || now - k.fetched_at >= INSTALLS_TTL_SECS,
        }),
{
    match kept {
        None => true,
        Some(k) => (k.has_repo && !k.has_quants) || now as i128 - k.fetched_at as i128
            >= INSTALLS_TTL_SECS as i128,
    }
}

/// The bytes that a text in an address stands for.
pub open spec fn url_read(s: Seq<char>) -> Seq<u8>
    decreases s.len(),
{
    if s.len() == 0 {
        Seq::empty()
    } else if s[0] == '%' && s.len() >= 3 {
        seq![(url_digit(s[1]) * 16 + url_digit(s[2])) as u8] + url_read(s.skip(3))
    } else {
        seq![s[0] as u8] + url_read(s.skip(1))
    }
}

pub open spec fn url_digit(c: char) -> int {
    if is_digit(c) {
        c as int - '0' as int
    } else {
        c as int - 'A' as int + 10
    }
}

/// What is escaped for an address reads back byte by byte.
pub proof fn law_an_address_reads_back(s: Seq<u8>)
    ensures
        url_read(url_bytes(s)) == s,
    decreases s.len(),
{
    if s.len() == 0 {
        assert(url_read(url_bytes(s)) =~= s);
    } else {
        let t = s.skip(1);
        let b = s[0];
        law_an_address_reads_back(t);
        assert(s =~= seq![b] + t);
        lemma_url_first(b, t);
        let e = url_byte(b);
        let all = e + url_bytes(t);
        assert(all.skip(e.len() as int) =~= url_bytes(t));
        if !is_unreserved(b) {
            assert(all[1] == upper_hex(b as int / 16));
            assert(all[2] == upper_hex(b as int % 16));
            assert(url_digit(all[1]) == b as int / 16);
            assert(url_digit(all[2]) == b as int % 16);
            assert(url_digit(all[1]) * 16 + url_digit(all[2]) == b as int);
        } else {
            assert(all[0] == b as char);
            assert(b as char != '%');
        }
        assert(seq![b] + t =~= s);
    }
}

proof fn lemma_url_first(b: u8, t: Seq<u8>)
    ensures
        url_bytes(seq![b] + t) == url_byte(b) + url_bytes(t),
    decreases t.len(),
{
    let s = seq![b] + t;
    if t.len() == 0 {
        assert(s.drop_last() =~= Seq::<u8>::empty());
        assert(url_bytes(s.drop_last()) =~= Seq::<char>::empty());
        assert(url_bytes(s) =~= url_byte(b) + url_bytes(t));
    } else {
        lemma_url_first(b, t.drop_last());
        assert(s.drop_last() =~= seq![b] + t.drop_last());
        assert(url_bytes(s) =~= url_byte(b) + url_bytes(t));
    }
}

/// A quantization that ends the name of a file is read as it stands there.
pub proof fn law_the_quantization_at_the_end_is_read(front: Seq<char>, q: Seq<char>)
    requires
        names_quant(q),
        forall|i: int| 0 <= i < q.len() ==> #[trigger] q[i] != '-' && q[i] != '.',
    ensures
        ({
            let s = front + seq!['-'] + q;
            last_quant(s, s.len() as int, s.len() as int) == Some(q)
        }),
{
    lemma_quant_read_back(front, q, q.len());
}

proof fn lemma_quant_read_back(front: Seq<char>, q: Seq<char>, n: nat)
    requires
        names_quant(q),
        n <= q.len(),
        forall|i: int| 0 <= i < q.len() ==> #[trigger] q[i] != '-' && q[i] != '.',
    ensures
        ({
            let s = front + seq!['-'] + q;
            last_quant(s, (front.len() + 1 + n) as int, s.len() as int) == Some(q)
        }),
    decreases n,
{
    let s = front + seq!['-'] + q;
    let i = (front.len() + 1 + n) as int;
    if n == 0 {
        assert(s[i - 1] == '-');
        assert(s.subrange(i, s.len() as int) =~= q);
    } else {
        assert(s[i - 1] == q[n - 1]);
        lemma_quant_read_back(front, q, (n - 1) as nat);
    }
}

/// The parts of one file bear one name: the mark that tells them apart is taken off.
pub proof fn law_a_part_is_named_as_the_whole(name: Seq<char>, part: Seq<char>, of: Seq<char>)
    requires
        all_digits(part),
        all_digits(of),
    ensures
        without_part_mark(name + "-"@ + part + "-OF-"@ + of) == name,
{
    reveal_strlit("-");
    reveal_strlit("-OF-");
    let s = name + "-"@ + part + "-OF-"@ + of;
    let i = (name.len() + 1 + part.len()) as int;
    lemma_rfind_upto(s, "-OF-"@, s.len() as int);
    assert(s.subrange(i, i + 4) =~= "-OF-"@);
    assert(matches_at(s, "-OF-"@, i));
    let k = rfind(s, "-OF-"@)->Some_0;
    if k > i {
        assert(s.subrange(k, k + 4)[0] == s[k]);
        assert("-OF-"@[0] == '-' && "-OF-"@[3] == '-');
        assert(s.subrange(k, k + 4)[3] == s[k + 3]);
        if k >= i + 4 {
            assert(s[k] == of[k - i - 4]);
            assert(is_digit(of[k - i - 4]));
        } else {
            assert(s[k + 3] == of[k + 3 - i - 4]);
            assert(is_digit(of[k + 3 - i - 4]));
        }
        assert(false);
    }
    let t = s.take(i);
    let j = name.len() as int;
    lemma_rfind_upto(t, "-"@, t.len() as int);
    assert(t.subrange(j, j + 1) =~= "-"@);
    assert(matches_at(t, "-"@, j));
    let m = rfind(t, "-"@)->Some_0;
    if m > j {
        assert(t.subrange(m, m + 1)[0] == t[m]);
        assert(t[m] == part[m - j - 1]);
        assert(is_digit(part[m - j - 1]));
        assert(false);
    }
    assert(s.subrange(j + 1, i) =~= part);
    assert(s.skip(i + 4) =~= of);
    assert(s.take(j) =~= name);
}

/// The quantization that is proposed is the first of the preferences that is offered; where
/// none is, it is the lightest.
pub proof fn law_the_first_preference_is_proposed(quants: Seq<QuantView>, k: int)
    requires
        0 <= k <= preferred().len(),
        forall|i: int| 0 <= i < k ==> !offers(quants, #[trigger] preferred()[i]),
    ensures
        k < preferred().len() && offers(quants, preferred()[k]) ==> proposed_from(quants, 0)
            == Some(preferred()[k]),
        k == preferred().len() && quants.len() > 0 ==> proposed_from(quants, 0) == Some(
            quants[0].quant,
        ),
        k == preferred().len() && quants.len() == 0 ==> proposed_from(quants, 0) is None,
{
    lemma_proposed(quants, 0, k);
}

proof fn lemma_proposed(quants: Seq<QuantView>, from: int, k: int)
    requires
        0 <= from <= k <= preferred().len(),
        forall|i: int| 0 <= i < k ==> !offers(quants, #[trigger] preferred()[i]),
    ensures
        proposed_from(quants, from) == proposed_from(quants, k),
    decreases k - from,
{
    if from < k {
        assert(!offers(quants, preferred()[from]));
        lemma_proposed(quants, from + 1, k);
    }
}

/// What is pulled is the repository; where it holds several files the quantization is named too.
pub proof fn law_the_repository_is_pulled(repo: Seq<char>, files: nat, quant: Seq<char>)
    ensures
        pull_name(repo, files, Some(quant)) is Some <==> files > 0,
        pull_name(repo, files, Some(quant)) matches Some(n) ==> crate::reading::holds(n, repo),
        files > 1 ==> (pull_name(repo, files, Some(quant)) matches Some(n) && ends_with(n, quant)),
        files == 1 ==> (pull_name(repo, files, Some(quant)) matches Some(n) && ends_with(n, repo)),
{
    let none = Seq::<char>::empty();
    let one = "hf.co/"@ + repo;
    let many = "hf.co/"@ + repo + ":"@ + quant;
    assert(one =~= "hf.co/"@ + repo + none);
    crate::reading::lemma_holds("hf.co/"@, repo, none);
    assert(many =~= "hf.co/"@ + repo + (":"@ + quant));
    crate::reading::lemma_holds("hf.co/"@, repo, ":"@ + quant);
    let k = many.len() - quant.len();
    assert(many.subrange(k, k + quant.len()) =~= quant);
    let j = one.len() - repo.len();
    assert(one.subrange(j, j + repo.len()) =~= repo);
}

} // verus!
