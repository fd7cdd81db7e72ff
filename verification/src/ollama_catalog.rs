//! The public library of models, read from its pages. A page may change: what cannot be read
//! is left out, and never a failure.

use vstd::prelude::*;

use crate::decimal::{
    at_most_max, decimal_of, integer_of, law_a_number_is_read_by_its_digits, natural_of, pow10,
    read_decimal, read_natural, read_up_to, whole_times,
};
use crate::text::{
    all_digits, byte_len, cat3, char_byte_count, char_bytes, char_is_digit, char_views, chars_eq, contains, digits_value,
    copied, ends_with, find, find_from, has, index_from, index_of, is_digit, last_index_of,
    lemma_find_from, lemma_rfind_upto, lower_case, matches_at, opt, part, replace_all, replaced, rfind, split,
    split_words, splitted, str_eq, texts_of, to_chars, lowered, to_text, raised, trim,
    trim_end_of, trimmed, trimmed_end_of, upper_case, views, words,
};

verus! {

pub const LIBRARY_URL: &'static str = "https://ollama.com/library";

/// How long the library is kept, in seconds.
pub const LIBRARY_TTL_SECS: i64 = 86400;

/// How long the tags of a model are kept, in seconds.
pub const TAGS_TTL_SECS: i64 = 604800;

// ---------------------------------------------------------------------------
// Pieces of a page
// ---------------------------------------------------------------------------

/// What stands between the first `start` and the next `end`.
pub open spec fn cut(hay: Seq<char>, start: Seq<char>, end: Seq<char>) -> Option<Seq<char>> {
    match find(hay, start) {
        Some(i) => match find_from(hay, end, i + start.len()) {
            Some(j) => Some(hay.subrange(i + start.len(), j)),
            None => None,
        },
        None => None,
    }
}

/// Everything that stands between a `start` and the next `end`, one after the other.
pub open spec fn cuts_from(hay: Seq<char>, start: Seq<char>, end: Seq<char>, from: int) -> Seq<
    Seq<char>,
>
    decreases hay.len() - from,
{
    match find_from(hay, start, from) {
        Some(i) => match find_from(hay, end, i + start.len()) {
            Some(j) => if from < j + end.len() <= hay.len() {
                seq![hay.subrange(i + start.len(), j)] + cuts_from(
                    hay,
                    start,
                    end,
                    j + end.len(),
                )
            } else {
                Seq::empty()
            },
            None => Seq::empty(),
        },
        None => Seq::empty(),
    }
}

pub open spec fn cuts(hay: Seq<char>, start: Seq<char>, end: Seq<char>) -> Seq<Seq<char>> {
    cuts_from(hay, start, end, 0)
}

pub open spec fn opt_chars(o: Option<Vec<char>>) -> Option<Seq<char>> {
    match o {
        Some(v) => Some(v@),
        None => None,
    }
}

fn cut_chars(hay: &[char], start: &str, end: &str) -> (r: Option<Vec<char>>)
    ensures
        opt_chars(r) == cut(hay@, start@, end@),
{
    let s = to_chars(start);
    let e = to_chars(end);
    let n: usize = hay.len();
    match index_of(hay, s.as_slice()) {
        Some(i) => {
            proof {
                lemma_find_from(hay@, start@, 0);
                lemma_find_from(hay@, end@, i + start@.len());
                assert(i + start@.len() <= n);
            }
            let from: usize = i + s.len();
            match index_from(hay, e.as_slice(), from) {
                Some(j) => Some(copied(part(hay, from, j))),
                None => None,
            }
        },
        None => None,
    }
}

pub fn between(hay: &str, start: &str, end: &str) -> (r: Option<String>)
    ensures
        opt(r) == cut(hay@, start@, end@),
{
    match cut_chars(to_chars(hay).as_slice(), start, end) {
        Some(v) => Some(to_text(v.as_slice())),
        None => None,
    }
}

fn all_cuts(hay: &[char], start: &str, end: &str) -> (r: Vec<Vec<char>>)
    requires
        start@.len() > 0,
    ensures
        char_views(r@) == cuts(hay@, start@, end@),
{
    let s = to_chars(start);
    let e = to_chars(end);
    let n: usize = hay.len();
    let mut out: Vec<Vec<char>> = Vec::new();
    let mut from: usize = 0;
    assert(char_views(out@) + cuts(hay@, start@, end@) =~= cuts(hay@, start@, end@));
    loop
        invariant
            from <= hay@.len(),
            n == hay@.len(),
            s@ == start@,
            e@ == end@,
            start@.len() > 0,
            cuts(hay@, start@, end@) == char_views(out@) + cuts_from(
                hay@,
                start@,
                end@,
                from as int,
            ),
        decreases n - from,
    {
        proof {
            lemma_find_from(hay@, start@, from as int);
        }
        match index_from(hay, s.as_slice(), from) {
            Some(i) => {
                let at: usize = i + s.len();
                proof {
                    lemma_find_from(hay@, end@, at as int);
                }
                match index_from(hay, e.as_slice(), at) {
                    Some(j) => {
                        let ghost before = char_views(out@);
                        let piece = copied(part(hay, at, j));
                        let ghost pv = piece@;
                        out.push(piece);
                        assert(char_views(out@) =~= before.push(pv));
                        let ghost rest = cuts_from(hay@, start@, end@, j + end@.len());
                        assert(before + (seq![pv] + rest) =~= char_views(out@) + rest);
                        from = j + e.len();
                    },
                    None => {
                        assert(char_views(out@) + Seq::<Seq<char>>::empty() =~= char_views(out@));
                        return out;
                    },
                }
            },
            None => {
                assert(char_views(out@) + Seq::<Seq<char>>::empty() =~= char_views(out@));
                return out;
            },
        }
    }
}

pub fn all_between(hay: &str, start: &str, end: &str) -> (r: Vec<String>)
    requires
        start@.len() > 0,
    ensures
        views(r@) == cuts(hay@, start@, end@),
{
    texts_of(&all_cuts(to_chars(hay).as_slice(), start, end))
}

/// The text of a badge: what follows its attributes, unless it is empty or holds a tag.
pub open spec fn badge_of(fragment: Seq<char>) -> Option<Seq<char>> {
    let t = trim(
        match rfind(fragment, "\">"@) {
            Some(i) => fragment.skip(i + "\">"@.len()),
            None => fragment,
        },
    );
    if t.len() == 0 || contains(t, "<"@) {
        None
    } else {
        Some(t)
    }
}

fn badge_chars(fragment: &[char]) -> (r: Option<Vec<char>>)
    ensures
        opt_chars(r) == badge_of(fragment@),
{
    let mark = to_chars("\">");
    let n: usize = fragment.len();
    let rest = match last_index_of(fragment, mark.as_slice()) {
        Some(i) => {
            proof {
                lemma_rfind_upto(fragment@, mark@, fragment@.len() as int);
            }
            let p = part(fragment, i + mark.len(), n);
            assert(p@ =~= fragment@.skip(i + "\">"@.len()));
            p
        },
        None => fragment,
    };
    let t = trimmed(rest);
    if t.len() == 0 || has(t, to_chars("<").as_slice()) {
        None
    } else {
        Some(copied(t))
    }
}

pub fn badge_text(fragment: &str) -> (r: Option<String>)
    ensures
        opt(r) == badge_of(fragment@),
{
    match badge_chars(to_chars(fragment).as_slice()) {
        Some(v) => Some(to_text(v.as_slice())),
        None => None,
    }
}

/// What stands in the element before a label.
pub open spec fn value_before_label(card: Seq<char>, label: Seq<char>) -> Option<Seq<char>> {
    match find(card, label) {
        Some(i) => match rfind(card.take(i), "</span>"@) {
            Some(close) => match rfind(card.take(close), ">"@) {
                Some(open) => {
                    let v = trim(card.subrange(open + 1, close));
                    if v.len() == 0 {
                        None
                    } else {
                        Some(v)
                    }
                },
                None => None,
            },
            None => None,
        },
        None => None,
    }
}

fn label_chars(card: &[char], label: &str) -> (r: Option<Vec<char>>)
    ensures
        opt_chars(r) == value_before_label(card@, label@),
{
    proof {
        reveal_strlit(">");
    }
    match index_of(card, to_chars(label).as_slice()) {
        Some(i) => {
            proof {
                lemma_find_from(card@, label@, 0);
            }
            let head = part(card, 0, i);
            assert(head@ =~= card@.take(i as int));
            match last_index_of(head, to_chars("</span>").as_slice()) {
                Some(close) => {
                    proof {
                        lemma_rfind_upto(head@, "</span>"@, head@.len() as int);
                    }
                    let inner = part(card, 0, close);
                    assert(inner@ =~= card@.take(close as int));
                    match last_index_of(inner, to_chars(">").as_slice()) {
                        Some(open) => {
                            proof {
                                lemma_rfind_upto(inner@, ">"@, inner@.len() as int);
                            }
                            let v = trimmed(part(card, open + 1, close));
                            if v.len() == 0 {
                                None
                            } else {
                                Some(copied(v))
                            }
                        },
                        None => None,
                    }
                },
                None => None,
            }
        },
        None => None,
    }
}

pub fn label_value(card: &str, label: &str) -> (r: Option<String>)
    ensures
        opt(r) == value_before_label(card@, label@),
{
    match label_chars(to_chars(card).as_slice(), label) {
        Some(v) => Some(to_text(v.as_slice())),
        None => None,
    }
}

/// A text with some entities as the characters that they stand for, trimmed.
pub open spec fn entities_decoded(s: Seq<char>) -> Seq<char> {
    trim(
        replace_all(
            replace_all(
                replace_all(
                    replace_all(
                        replace_all(replace_all(s, "&#39;"@, "'"@), "&quot;"@, "\""@),
                        "&nbsp;"@,
                        " "@,
                    ),
                    "&lt;"@,
                    "<"@,
                ),
                "&gt;"@,
                ">"@,
            ),
            "&amp;"@,
            "&"@,
        ),
    )
}

fn swap_text(s: &Vec<char>, pat: &str, with: &str) -> (r: Vec<char>)
    requires
        pat@.len() > 0,
    ensures
        r@ == replace_all(s@, pat@, with@),
{
    replaced(s.as_slice(), to_chars(pat).as_slice(), to_chars(with).as_slice())
}

fn decode_chars(s: &[char]) -> (r: String)
    ensures
        r@ == entities_decoded(s@),
{
    proof {
        reveal_strlit("&#39;");
        reveal_strlit("&quot;");
        reveal_strlit("&nbsp;");
        reveal_strlit("&lt;");
        reveal_strlit("&gt;");
        reveal_strlit("&amp;");
    }
    let a = copied(s);
    let b = swap_text(&a, "&#39;", "'");
    let c = swap_text(&b, "&quot;", "\"");
    let d = swap_text(&c, "&nbsp;", " ");
    let e = swap_text(&d, "&lt;", "<");
    let f = swap_text(&e, "&gt;", ">");
    let g = swap_text(&f, "&amp;", "&");
    to_text(trimmed(g.as_slice()))
}

pub fn decode_entities(s: &str) -> (r: String)
    ensures
        r@ == entities_decoded(s@),
{
    decode_chars(to_chars(s).as_slice())
}

// ---------------------------------------------------------------------------
// Numbers
// ---------------------------------------------------------------------------

pub open spec fn without_suffix(s: Seq<char>, n: nat) -> Seq<char> {
    s.take(s.len() - n)
}

/// The power of ten that the unit at the end of a text in upper case stands for.
pub open spec fn unit_power(l: Seq<char>) -> Option<int> {
    if ends_with(l, "TB"@) {
        Some(12)
    } else if ends_with(l, "GB"@) {
        Some(9)
    } else if ends_with(l, "MB"@) {
        Some(6)
    } else if ends_with(l, "KB"@) {
        Some(3)
    } else {
        None
    }
}

/// A size in bytes, from a text in upper case. The units are decimal.
pub open spec fn size_of_upper_spec(l: Seq<char>) -> Option<u64> {
    match unit_power(l) {
        Some(p) => match decimal_of(trim(without_suffix(l, 2))) {
            Some(d) => Some(whole_times(d, p)),
            None => None,
        },
        None => None,
    }
}

/// The size that a text in upper case writes.
pub fn size_of_upper(l: &str) -> (r: Option<u64>)
    ensures
        r == size_of_upper_spec(l@),
{
    proof {
        reveal_strlit("TB");
        reveal_strlit("GB");
        reveal_strlit("MB");
        reveal_strlit("KB");
    }
    let c = to_chars(l);
    let n: usize = c.len();
    let power: i128 = if crate::text::str_ends_with(l, "TB") {
        12
    } else if crate::text::str_ends_with(l, "GB") {
        9
    } else if crate::text::str_ends_with(l, "MB") {
        6
    } else if crate::text::str_ends_with(l, "KB") {
        3
    } else {
        return None;
    };
    let num = part(c.as_slice(), 0, n - 2);
    assert(num@ =~= without_suffix(l@, 2));
    match read_decimal(trimmed(num)) {
        Some(d) => Some(d.times_power(power)),
        None => None,
    }
}

pub fn parse_size(label: &str) -> (r: Option<u64>)
    ensures
        r == size_of_upper_spec(upper_case(trim(label@))),
{
    let t = to_text(trimmed(to_chars(label).as_slice()));
    size_of_upper(raised(t.as_str()).as_str())
}

/// The power of ten that a letter behind a count stands for.
pub open spec fn count_power(c: char) -> int {
    if c == 'K' || c == 'k' {
        3
    } else if c == 'M' || c == 'm' {
        6
    } else if c == 'B' || c == 'b' {
        9
    } else {
        0
    }
}

/// A count; what cannot be read counts as none.
pub open spec fn pulls_of(s: Seq<char>) -> u64 {
    let t = replace_all(trim(s), ","@, Seq::empty());
    let power = if t.len() > 0 {
        count_power(t.last())
    } else {
        0
    };
    let num = if power > 0 {
        t.drop_last()
    } else {
        t
    };
    match decimal_of(num) {
        Some(d) => whole_times(d, power),
        None => 0,
    }
}

fn without_commas(s: &[char]) -> (r: Vec<char>)
    ensures
        r@ == replace_all(s@, ","@, Seq::empty()),
{
    proof {
        reveal_strlit(",");
    }
    let nothing: Vec<char> = Vec::new();
    assert(nothing@ =~= Seq::<char>::empty());
    replaced(s, to_chars(",").as_slice(), nothing.as_slice())
}

pub fn parse_pulls(s: &str) -> (r: u64)
    ensures
        r == pulls_of(s@),
{
    let t = without_commas(trimmed(to_chars(s).as_slice()));
    let n: usize = t.len();
    let power: i128 = if n == 0 {
        0
    } else {
        let c = t[n - 1];
        if c == 'K' || c == 'k' {
            3
        } else if c == 'M' || c == 'm' {
            6
        } else if c == 'B' || c == 'b' {
            9
        } else {
            0
        }
    };
    let num = if power > 0 {
        let p = part(t.as_slice(), 0, n - 1);
        assert(p@ =~= t@.drop_last());
        p
    } else {
        t.as_slice()
    };
    match read_decimal(num) {
        Some(d) => d.times_power(power),
        None => 0,
    }
}

// ---------------------------------------------------------------------------
// Dates
// ---------------------------------------------------------------------------

pub open spec fn month_spec(m: Seq<char>) -> Option<int> {
    if m == "Jan"@ {
        Some(1)
    } else if m == "Feb"@ {
        Some(2)
    } else if m == "Mar"@ {
        Some(3)
    } else if m == "Apr"@ {
        Some(4)
    } else if m == "May"@ {
        Some(5)
    } else if m == "Jun"@ {
        Some(6)
    } else if m == "Jul"@ {
        Some(7)
    } else if m == "Aug"@ {
        Some(8)
    } else if m == "Sep"@ {
        Some(9)
    } else if m == "Oct"@ {
        Some(10)
    } else if m == "Nov"@ {
        Some(11)
    } else if m == "Dec"@ {
        Some(12)
    } else {
        None
    }
}

pub fn month_num(m: &str) -> (r: Option<i64>)
    ensures
        match r {
            Some(k) => month_spec(m@) == Some(k as int) && 1 <= k <= 12,
            None => month_spec(m@) is None,
        },
{
    if str_eq(m, "Jan") {
        Some(1)
    } else if str_eq(m, "Feb") {
        Some(2)
    } else if str_eq(m, "Mar") {
        Some(3)
    } else if str_eq(m, "Apr") {
        Some(4)
    } else if str_eq(m, "May") {
        Some(5)
    } else if str_eq(m, "Jun") {
        Some(6)
    } else if str_eq(m, "Jul") {
        Some(7)
    } else if str_eq(m, "Aug") {
        Some(8)
    } else if str_eq(m, "Sep") {
        Some(9)
    } else if str_eq(m, "Oct") {
        Some(10)
    } else if str_eq(m, "Nov") {
        Some(11)
    } else if str_eq(m, "Dec") {
        Some(12)
    } else {
        None
    }
}

/// A year as it is counted from March on.
pub open spec fn march_year(y: int, m: int) -> int {
    if m <= 2 {
        y - 1
    } else {
        y
    }
}

/// How many days lie between the first of January 1970 and a date.
pub open spec fn civil_days(y: int, m: int, d: int) -> int {
    let month = (m + 9) % 12;
    year_days(march_year(y, m)) + (153 * month + 2) / 5 + d - 1 - 719468
}

/// How many days lie before a year that starts in March.
#[verifier::opaque]
pub open spec fn year_days(year: int) -> int {
    let era = year / 400;
    let of_era = year - era * 400;
    era * 146097 + of_era * 365 + of_era / 4 - of_era / 100
}

pub open spec fn is_leap(y: int) -> bool {
    y % 4 == 0 && (y % 100 != 0 || y % 400 == 0)
}

pub open spec fn days_in_month(y: int, m: int) -> int {
    if m == 2 {
        if is_leap(y) {
            29
        } else {
            28
        }
    } else if m == 4 || m == 6 || m == 9 || m == 11 {
        30
    } else {
        31
    }
}

pub fn days_from_civil(y: i64, m: i64, d: i64) -> (r: i64)
    requires
        -1000000000000 <= y <= 1000000000000,
        1 <= m <= 12,
        -1000000000000 <= d <= 1000000000000,
    ensures
        r == civil_days(y as int, m as int, d as int),
{
    let year: i64 = if m <= 2 {
        y - 1
    } else {
        y
    };
    let era: i64 = if year >= 0 {
        year / 400
    } else {
        -((-year + 399) / 400)
    };
    assert(era == year as int / 400);
    let of_era: i64 = year - era * 400;
    let month: i64 = (m + 9) % 12;
    let of_year: i64 = (153 * month + 2) / 5 + d - 1;
    let day: i64 = of_era * 365 + of_era / 4 - of_era / 100 + of_year;
    proof {
        reveal(year_days);
    }
    era * 146097 + day - 719468
}

proof fn lemma_year_days(era: int, e: int)
    requires
        0 <= e < 400,
    ensures
        year_days(era * 400 + e) == era * 146097 + e * 365 + e / 4 - e / 100,
{
    reveal(year_days);
    assert((era * 400 + e) / 400 == era);
}

proof fn lemma_leap(era: int, t: int)
    requires
        0 <= t < 400,
    ensures
        is_leap(era * 400 + t) == (t % 4 == 0 && (t % 100 != 0 || t == 0)),
{
    assert((era * 400 + t) % 4 == t % 4);
    assert((era * 400 + t) % 100 == t % 100);
    assert((era * 400 + t) % 400 == t);
}

proof fn lemma_quotient_step(t: int)
    requires
        t > 0,
    ensures
        t / 4 - (t - 1) / 4 == (if t % 4 == 0 {
            1int
        } else {
            0
        }),
        t / 100 - (t - 1) / 100 == (if t % 100 == 0 {
            1int
        } else {
            0
        }),
{
}

/// A year has 365 days, or 366 where the February that ends it is long.
proof fn lemma_length_of_year(y: int)
    ensures
        year_days(y) == year_days(y - 1) + 337 + days_in_month(y, 2),
{
    let era = y / 400;
    let t = y % 400;
    assert(y == era * 400 + t);
    lemma_year_days(era, t);
    lemma_leap(era, t);
    if t == 0 {
        assert(y - 1 == (era - 1) * 400 + 399);
        lemma_year_days(era - 1, 399);
        assert(year_days(y - 1) == era * 146097 - 146097 + 145635 + 99 - 3);
    } else {
        assert(y - 1 == era * 400 + (t - 1));
        lemma_year_days(era, t - 1);
        lemma_quotient_step(t);
        assert(t % 100 == 0 ==> t % 4 == 0);
    }
}

/// The days are counted one by one from 1970 on: the day after another is one more, and the
/// first of a month follows the last day of the month before.
pub proof fn law_days_follow_each_other(y: int, m: int, d: int)
    requires
        1 <= m <= 12,
    ensures
        civil_days(1970, 1, 1) == 0,
        civil_days(y, m, d + 1) == civil_days(y, m, d) + 1,
        m < 12 ==> civil_days(y, m + 1, 1) == civil_days(y, m, days_in_month(y, m)) + 1,
        m == 12 ==> civil_days(y + 1, 1, 1) == civil_days(y, 12, 31) + 1,
{
    lemma_year_days(4, 369);
    lemma_length_of_year(y);
}

/// A date as the library writes it: month, day and year; what follows is the time of day.
pub open spec fn date_day(s: Seq<char>) -> Option<int> {
    let w = words(s);
    if w.len() < 3 {
        None
    } else {
        match (month_spec(w[0]), integer_of(trim_end_of(w[1], ',', ',')), integer_of(w[2])) {
            (Some(m), Some(d), Some(y)) => if 1 <= d <= 31 && 2000 <= y <= 2200 {
                Some(civil_days(y, m, d))
            } else {
                None
            },
            _ => None,
        }
    }
}

pub fn parse_date_day(s: &str) -> (r: Option<i64>)
    ensures
        match r {
            Some(d) => date_day(s@) == Some(d as int),
            None => date_day(s@) is None,
        },
{
    let w = split_words(to_chars(s).as_slice());
    let ghost all = words(s@);
    assert(char_views(w@).len() == w@.len());
    if w.len() < 3 {
        return None;
    }
    assert(all[0] == w@[0]@ && all[1] == w@[1]@ && all[2] == w@[2]@);
    let month = match month_num(to_text(w[0].as_slice()).as_str()) {
        Some(m) => m,
        None => {
            return None;
        },
    };
    let day = match read_up_to(trimmed_end_of(w[1].as_slice(), ',', ','), 31) {
        Some(d) => d,
        None => {
            return None;
        },
    };
    let year = match read_up_to(w[2].as_slice(), 2200) {
        Some(y) => y,
        None => {
            return None;
        },
    };
    if day < 1 || year < 2000 {
        return None;
    }
    Some(days_from_civil(year as i64, month, day as i64))
}

// ---------------------------------------------------------------------------
// The library
// ---------------------------------------------------------------------------

/// A model of the library.
#[derive(Debug)]
pub struct OllamaModel {
    pub name: String,
    pub description: String,
    pub capabilities: Vec<String>,
    pub sizes: Vec<String>,
    pub pulls: u64,
    pub pulls_label: String,
    pub tags: Option<u32>,
    pub updated: Option<String>,
    /// The same as days since 1970.
    pub updated_day: Option<i64>,
}

#[verifier::ext_equal]
pub struct ModelView {
    pub name: Seq<char>,
    pub description: Seq<char>,
    pub capabilities: Seq<Seq<char>>,
    pub sizes: Seq<Seq<char>>,
    pub pulls: u64,
    pub pulls_label: Seq<char>,
    pub tags: Option<u32>,
    pub updated: Option<Seq<char>>,
    pub updated_day: Option<int>,
}

pub open spec fn opt_int(o: Option<i64>) -> Option<int> {
    match o {
        Some(n) => Some(n as int),
        None => None,
    }
}

impl OllamaModel {
    pub open spec fn view(self) -> ModelView {
        ModelView {
            name: self.name@,
            description: self.description@,
            capabilities: views(self.capabilities@),
            sizes: views(self.sizes@),
            pulls: self.pulls,
            pulls_label: self.pulls_label@,
            tags: self.tags,
            updated: opt(self.updated),
            updated_day: opt_int(self.updated_day),
        }
    }
}

pub open spec fn model_views(v: Seq<OllamaModel>) -> Seq<ModelView> {
    Seq::new(v.len(), |i: int| v[i].view())
}

/// The texts of some badges.
pub open spec fn badges(fragments: Seq<Seq<char>>) -> Seq<Seq<char>>
    decreases fragments.len(),
{
    if fragments.len() == 0 {
        Seq::empty()
    } else {
        match badge_of(fragments.last()) {
            Some(t) => badges(fragments.drop_last()).push(t),
            None => badges(fragments.drop_last()),
        }
    }
}

/// A list in which no item follows its like.
pub open spec fn without_repeats(s: Seq<Seq<char>>) -> Seq<Seq<char>>
    decreases s.len(),
{
    if s.len() == 0 {
        Seq::empty()
    } else {
        let so_far = without_repeats(s.drop_last());
        if so_far.len() > 0 && so_far.last() == s.last() {
            so_far
        } else {
            so_far.push(s.last())
        }
    }
}

pub open spec fn capabilities_of(card: Seq<char>) -> Seq<Seq<char>> {
    without_repeats(
        badges(cuts(card, "bg-indigo-50"@, "</span>"@) + cuts(card, "bg-cyan-50"@, "</span>"@)),
    )
}

/// A size of a model, in lower case: a number of millions or billions.
pub open spec fn is_model_size(l: Seq<char>) -> bool {
    l.len() > 0 && (l.last() == 'b' || l.last() == 'm') && is_digit(l[0])
}

pub open spec fn sizes_of(badge_texts: Seq<Seq<char>>) -> Seq<Seq<char>>
    decreases badge_texts.len(),
{
    if badge_texts.len() == 0 {
        Seq::empty()
    } else {
        let so_far = sizes_of(badge_texts.drop_last());
        let l = lower_case(badge_texts.last());
        if is_model_size(l) {
            so_far.push(l)
        } else {
            so_far
        }
    }
}

pub open spec fn first_date(titles: Seq<Seq<char>>, from: int) -> Option<Seq<char>>
    decreases titles.len() - from,
{
    if from < 0 || from >= titles.len() {
        None
    } else if date_day(titles[from]) is Some {
        Some(titles[from])
    } else {
        first_date(titles, from + 1)
    }
}

pub open spec fn description_of(card: Seq<char>) -> Seq<char> {
    match cut(card, "<p class=\"max-w-lg"@, "</p>"@) {
        Some(f) => match find(f, ">"@) {
            Some(i) => entities_decoded(f.skip(i + 1)),
            None => Seq::empty(),
        },
        None => Seq::empty(),
    }
}

pub open spec fn tag_count(card: Seq<char>) -> Option<u32> {
    match value_before_label(card, "&nbsp;Tags"@) {
        Some(v) => match natural_of(replace_all(v, ","@, Seq::empty())) {
            Some(n) => if n <= u32::MAX {
                Some(n as u32)
            } else {
                None
            },
            None => None,
        },
        None => None,
    }
}

pub open spec fn pulls_label_of(card: Seq<char>) -> Seq<char> {
    match value_before_label(card, "&nbsp;Pulls"@) {
        Some(v) => v,
        None => "0"@,
    }
}

/// The model that a card of the page shows; `None` where the card names none.
pub open spec fn model_of(card: Seq<char>) -> Option<ModelView> {
    match cut(card, "href=\"/library/"@, "\""@) {
        Some(name) => if name.len() == 0 || contains(name, "/"@) {
            None
        } else {
            let updated = first_date(cuts(card, "title=\""@, "\""@), 0);
            Some(
                ModelView {
                    name,
                    description: description_of(card),
                    capabilities: capabilities_of(card),
                    sizes: sizes_of(badges(cuts(card, "bg-[#ddf4ff]"@, "</span>"@))),
                    pulls: pulls_of(pulls_label_of(card)),
                    pulls_label: pulls_label_of(card),
                    tags: tag_count(card),
                    updated,
                    updated_day: match updated {
                        Some(d) => date_day(d),
                        None => None,
                    },
                },
            )
        },
        None => None,
    }
}

pub open spec fn models_of(cards: Seq<Seq<char>>) -> Seq<ModelView>
    decreases cards.len(),
{
    if cards.len() == 0 {
        Seq::empty()
    } else {
        match model_of(cards.last()) {
            Some(m) => models_of(cards.drop_last()).push(m),
            None => models_of(cards.drop_last()),
        }
    }
}

/// The models on a page: one for each of its cards.
pub open spec fn library_of(html: Seq<char>) -> Seq<ModelView> {
    models_of(split(html, "<li "@).skip(1))
}

fn badge_list(fragments: &Vec<Vec<char>>, out: &mut Vec<Vec<char>>)
    ensures
        char_views(final(out)@) == char_views(old(out)@) + badges(char_views(fragments@)),
{
    let ghost start = char_views(out@);
    let ghost all = char_views(fragments@);
    let mut i: usize = 0;
    assert(all.take(0) =~= Seq::<Seq<char>>::empty());
    assert(start + Seq::<Seq<char>>::empty() =~= start);
    while i < fragments.len()
        invariant
            i <= fragments.len(),
            all == char_views(fragments@),
            char_views(out@) == start + badges(all.take(i as int)),
        decreases fragments.len() - i,
    {
        assert(all.take(i + 1).drop_last() =~= all.take(i as int));
        assert(all.take(i + 1).last() == fragments@[i as int]@);
        let ghost before = char_views(out@);
        if let Some(t) = badge_chars(fragments[i].as_slice()) {
            let ghost tv = t@;
            out.push(t);
            assert(char_views(out@) =~= before.push(tv));
            assert((start + badges(all.take(i as int))).push(tv) =~= start + badges(
                all.take(i as int),
            ).push(tv));
        }
        i = i + 1;
    }
    assert(all.take(i as int) =~= all);
}

proof fn lemma_badges_add(a: Seq<Seq<char>>, b: Seq<Seq<char>>)
    ensures
        badges(a + b) == badges(a) + badges(b),
    decreases b.len(),
{
    if b.len() == 0 {
        assert(a + b =~= a);
        assert(badges(a) + badges(b) =~= badges(a));
    } else {
        lemma_badges_add(a, b.drop_last());
        assert((a + b).drop_last() =~= a + b.drop_last());
        assert((a + b).last() == b.last());
        assert(badges(a + b) =~= badges(a) + badges(b));
    }
}

fn drop_repeats(v: &Vec<Vec<char>>) -> (r: Vec<String>)
    ensures
        views(r@) == without_repeats(char_views(v@)),
{
    let ghost all = char_views(v@);
    let mut out: Vec<String> = Vec::new();
    let mut last: usize = 0;
    let mut i: usize = 0;
    assert(all.take(0) =~= Seq::<Seq<char>>::empty());
    assert(views(out@) =~= Seq::<Seq<char>>::empty());
    while i < v.len()
        invariant
            i <= v.len(),
            all == char_views(v@),
            views(out@) == without_repeats(all.take(i as int)),
            out@.len() > 0 ==> last < v.len() && views(out@).last() == all[last as int],
        decreases v.len() - i,
    {
        assert(all.take(i + 1).drop_last() =~= all.take(i as int));
        assert(all.take(i + 1).last() == v@[i as int]@);
        assert(views(out@).len() == out@.len());
        if !(out.len() > 0 && chars_eq(v[last].as_slice(), v[i].as_slice())) {
            let ghost before = views(out@);
            out.push(to_text(v[i].as_slice()));
            assert(views(out@) =~= before.push(v@[i as int]@));
            last = i;
        }
        i = i + 1;
    }
    assert(all.take(i as int) =~= all);
    out
}

fn read_capabilities(card: &[char]) -> (r: Vec<String>)
    ensures
        views(r@) == capabilities_of(card@),
{
    proof {
        reveal_strlit("bg-indigo-50");
        reveal_strlit("bg-cyan-50");
    }
    let a = all_cuts(card, "bg-indigo-50", "</span>");
    let b = all_cuts(card, "bg-cyan-50", "</span>");
    let mut found: Vec<Vec<char>> = Vec::new();
    assert(char_views(found@) =~= Seq::<Seq<char>>::empty());
    badge_list(&a, &mut found);
    badge_list(&b, &mut found);
    proof {
        lemma_badges_add(char_views(a@), char_views(b@));
        assert(Seq::<Seq<char>>::empty() + badges(char_views(a@)) =~= badges(char_views(a@)));
    }
    drop_repeats(&found)
}

fn read_sizes(card: &[char]) -> (r: Vec<String>)
    ensures
        views(r@) == sizes_of(badges(cuts(card@, "bg-[#ddf4ff]"@, "</span>"@))),
{
    proof {
        reveal_strlit("bg-[#ddf4ff]");
    }
    let fragments = all_cuts(card, "bg-[#ddf4ff]", "</span>");
    let mut found: Vec<Vec<char>> = Vec::new();
    assert(char_views(found@) =~= Seq::<Seq<char>>::empty());
    badge_list(&fragments, &mut found);
    let ghost all = char_views(found@);
    assert(all =~= badges(char_views(fragments@)));
    let mut out: Vec<String> = Vec::new();
    let mut i: usize = 0;
    assert(all.take(0) =~= Seq::<Seq<char>>::empty());
    assert(views(out@) =~= Seq::<Seq<char>>::empty());
    while i < found.len()
        invariant
            i <= found.len(),
            all == char_views(found@),
            views(out@) == sizes_of(all.take(i as int)),
        decreases found.len() - i,
    {
        assert(all.take(i + 1).drop_last() =~= all.take(i as int));
        assert(all.take(i + 1).last() == found@[i as int]@);
        let l = lowered(to_text(found[i].as_slice()).as_str());
        let c = to_chars(l.as_str());
        let n: usize = c.len();
        if n > 0 && (c[n - 1] == 'b' || c[n - 1] == 'm') && char_is_digit(c[0]) {
            let ghost before = views(out@);
            let ghost lv = l@;
            out.push(l);
            assert(views(out@) =~= before.push(lv));
        }
        i = i + 1;
    }
    assert(all.take(i as int) =~= all);
    out
}

fn read_description(card: &[char]) -> (r: String)
    ensures
        r@ == description_of(card@),
{
    if let Some(f) = cut_chars(card, "<p class=\"max-w-lg", "</p>") {
        proof {
            reveal_strlit(">");
            lemma_find_from(f@, ">"@, 0);
        }
        let n: usize = f.len();
        if let Some(i) = index_of(f.as_slice(), to_chars(">").as_slice()) {
            assert(i + 1 <= n);
            let rest = part(f.as_slice(), i + 1, n);
            assert(rest@ =~= f@.skip(i + 1));
            return decode_chars(rest);
        }
    }
    let s = String::new();
    assert(s@ =~= Seq::<char>::empty());
    s
}

fn read_tag_count(card: &[char]) -> (r: Option<u32>)
    ensures
        r == tag_count(card@),
{
    match label_chars(card, "&nbsp;Tags") {
        Some(v) => match read_natural(without_commas(v.as_slice()).as_slice(), 4294967295) {
            Some(n) => Some(n as u32),
            None => None,
        },
        None => None,
    }
}

fn read_updated(card: &[char]) -> (r: Option<String>)
    ensures
        opt(r) == first_date(cuts(card@, "title=\""@, "\""@), 0),
{
    proof {
        reveal_strlit("title=\"");
    }
    let titles = all_cuts(card, "title=\"", "\"");
    let ghost all = char_views(titles@);
    let mut i: usize = 0;
    while i < titles.len()
        invariant
            i <= titles.len(),
            all == char_views(titles@),
            all == cuts(card@, "title=\""@, "\""@),
            first_date(all, 0) == first_date(all, i as int),
        decreases titles.len() - i,
    {
        assert(all[i as int] == titles@[i as int]@);
        let t = to_text(titles[i].as_slice());
        if parse_date_day(t.as_str()).is_some() {
            return Some(t);
        }
        i = i + 1;
    }
    None
}

fn read_model(card: &[char]) -> (r: Option<OllamaModel>)
    ensures
        match r {
            Some(m) => model_of(card@) == Some(m.view()),
            None => model_of(card@) is None,
        },
{
    let name = match cut_chars(card, "href=\"/library/", "\"") {
        Some(n) => n,
        None => {
            return None;
        },
    };
    if name.len() == 0 || has(name.as_slice(), to_chars("/").as_slice()) {
        return None;
    }
    let pulls_label = match label_chars(card, "&nbsp;Pulls") {
        Some(v) => to_text(v.as_slice()),
        None => "0".to_owned(),
    };
    let updated = read_updated(card);
    let updated_day = match &updated {
        Some(d) => parse_date_day(d.as_str()),
        None => None,
    };
    let m = OllamaModel {
        name: to_text(name.as_slice()),
        description: read_description(card),
        capabilities: read_capabilities(card),
        sizes: read_sizes(card),
        pulls: parse_pulls(pulls_label.as_str()),
        pulls_label,
        tags: read_tag_count(card),
        updated,
        updated_day,
    };
    assert(m.view() =~= model_of(card@)->Some_0);
    Some(m)
}

pub fn parse_library(html: &str) -> (r: Vec<OllamaModel>)
    ensures
        model_views(r@) == library_of(html@),
{
    proof {
        reveal_strlit("<li ");
    }
    let pieces = splitted(to_chars(html).as_slice(), to_chars("<li ").as_slice());
    let ghost all = char_views(pieces@);
    let mut out: Vec<OllamaModel> = Vec::new();
    let n: usize = pieces.len();
    assert(model_views(out@) =~= Seq::<ModelView>::empty());
    if n == 0 {
        assert(all.skip(1) =~= Seq::<Seq<char>>::empty()) by {
            lemma_split_not_empty(html@, "<li "@);
        }
        return out;
    }
    let ghost cards = all.skip(1);
    let mut i: usize = 1;
    assert(cards.take(0) =~= Seq::<Seq<char>>::empty());
    while i < n
        invariant
            1 <= i <= n,
            n == pieces@.len(),
            all == char_views(pieces@),
            cards == all.skip(1),
            model_views(out@) == models_of(cards.take(i - 1)),
        decreases n - i,
    {
        assert(cards.take(i as int).drop_last() =~= cards.take(i - 1));
        assert(cards.take(i as int).last() == pieces@[i as int]@);
        let ghost before = model_views(out@);
        if let Some(m) = read_model(pieces[i].as_slice()) {
            let ghost mv = m.view();
            out.push(m);
            assert(model_views(out@) =~= before.push(mv));
        }
        i = i + 1;
    }
    assert(cards.take(n - 1) =~= cards);
    out
}

proof fn lemma_split_not_empty(hay: Seq<char>, pat: Seq<char>)
    ensures
        split(hay, pat).len() > 0,
{
}

// ---------------------------------------------------------------------------
// Tags
// ---------------------------------------------------------------------------

/// A tag of a model: one of its quantizations.
#[derive(Debug)]
pub struct OllamaTag {
    pub tag: String,
    pub bytes: Option<u64>,
    pub size_label: Option<String>,
    pub context: Option<String>,
    pub modality: Option<String>,
}

#[verifier::ext_equal]
pub struct TagView {
    pub tag: Seq<char>,
    pub bytes: Option<u64>,
    pub size_label: Option<Seq<char>>,
    pub context: Option<Seq<char>>,
    pub modality: Option<Seq<char>>,
}

impl OllamaTag {
    pub open spec fn view(self) -> TagView {
        TagView {
            tag: self.tag@,
            bytes: self.bytes,
            size_label: opt(self.size_label),
            context: opt(self.context),
            modality: opt(self.modality),
        }
    }
}

pub open spec fn tag_views(v: Seq<OllamaTag>) -> Seq<TagView> {
    Seq::new(v.len(), |i: int| v[i].view())
}

/// Where the number that ends at `pos` starts.
pub open spec fn amount_start(s: Seq<char>, pos: int) -> int
    decreases pos,
{
    if pos <= 0 || pos > s.len() || !(is_digit(s[pos - 1]) || s[pos - 1] == '.') {
        pos
    } else {
        amount_start(s, pos - 1)
    }
}

/// The first number that stands directly before a unit, with the unit.
pub open spec fn amount_from(s: Seq<char>, unit: Seq<char>, from: int) -> Option<Seq<char>>
    decreases s.len() - from,
{
    match find_from(s, unit, from) {
        Some(pos) => {
            let start = amount_start(s, pos);
            if start < pos && is_digit(s[start]) {
                Some(s.subrange(start, pos) + unit)
            } else if unit.len() > 0 && from <= pos && pos + unit.len() <= s.len() {
                amount_from(s, unit, pos + unit.len())
            } else {
                None
            }
        },
        None => None,
    }
}

/// An amount in the largest unit that occurs with a number.
pub open spec fn amount_of(s: Seq<char>) -> Option<Seq<char>> {
    match amount_from(s, "TB"@, 0) {
        Some(a) => Some(a),
        None => match amount_from(s, "GB"@, 0) {
            Some(a) => Some(a),
            None => match amount_from(s, "MB"@, 0) {
                Some(a) => Some(a),
                None => amount_from(s, "KB"@, 0),
            },
        },
    }
}

fn find_amount_start(s: &[char], pos: usize) -> (r: usize)
    requires
        pos <= s@.len(),
    ensures
        r == amount_start(s@, pos as int),
        r <= pos,
{
    let mut i: usize = pos;
    while i > 0 && (char_is_digit(s[i - 1]) || s[i - 1] == '.')
        invariant
            i <= pos,
            pos <= s@.len(),
            amount_start(s@, pos as int) == amount_start(s@, i as int),
        decreases i,
    {
        i = i - 1;
    }
    i
}

fn find_amount(s: &[char], unit: &str) -> (r: Option<String>)
    requires
        unit@.len() > 0,
    ensures
        opt(r) == amount_from(s@, unit@, 0),
{
    let u = to_chars(unit);
    let n: usize = s.len();
    let mut from: usize = 0;
    loop
        invariant
            from <= n,
            n == s@.len(),
            u@ == unit@,
            unit@.len() > 0,
            amount_from(s@, unit@, 0) == amount_from(s@, unit@, from as int),
        decreases n - from,
    {
        proof {
            lemma_find_from(s@, unit@, from as int);
        }
        match index_from(s, u.as_slice(), from) {
            Some(pos) => {
                let start = find_amount_start(s, pos);
                if start < pos && char_is_digit(s[start]) {
                    let mut out = to_text(part(s, start, pos));
                    out.append(unit);
                    return Some(out);
                }
                from = pos + u.len();
            },
            None => {
                return None;
            },
        }
    }
}

fn amount_text(s: &[char]) -> (r: Option<String>)
    ensures
        opt(r) == amount_of(s@),
{
    proof {
        reveal_strlit("TB");
        reveal_strlit("GB");
        reveal_strlit("MB");
        reveal_strlit("KB");
    }
    if let Some(a) = find_amount(s, "TB") {
        return Some(a);
    }
    if let Some(a) = find_amount(s, "GB") {
        return Some(a);
    }
    if let Some(a) = find_amount(s, "MB") {
        return Some(a);
    }
    find_amount(s, "KB")
}

pub fn mot_avant_unite(s: &str) -> (r: Option<String>)
    ensures
        opt(r) == amount_of(s@),
{
    amount_text(to_chars(s).as_slice())
}

pub open spec fn is_mark(c: char) -> bool {
    c == '·' || c == '>' || c == '\n'
}

/// Where what stands before `pos` starts: behind the last separator or tag.
pub open spec fn value_start(s: Seq<char>, pos: int) -> int
    decreases pos,
{
    if pos <= 0 || pos > s.len() || is_mark(s[pos - 1]) {
        pos
    } else {
        value_start(s, pos - 1)
    }
}

/// What stands directly before a label, unless it is empty or too long to be a value.
pub open spec fn value_before(s: Seq<char>, label: Seq<char>) -> Option<Seq<char>> {
    match find(s, label) {
        Some(i) => {
            let v = trim(s.subrange(value_start(s, i), i));
            if v.len() == 0 || byte_len(v) > 40 {
                None
            } else {
                Some(v)
            }
        },
        None => None,
    }
}

fn value_chars(s: &[char], label: &str) -> (r: Option<String>)
    ensures
        opt(r) == value_before(s@, label@),
{
    match index_of(s, to_chars(label).as_slice()) {
        Some(pos) => {
            proof {
                lemma_find_from(s@, label@, 0);
            }
            let mut i: usize = pos;
            while i > 0 && !(s[i - 1] == '·' || s[i - 1] == '>' || s[i - 1] == '\n')
                invariant
                    i <= pos,
                    pos <= s@.len(),
                    value_start(s@, pos as int) == value_start(s@, i as int),
                decreases i,
            {
                i = i - 1;
            }
            let v = to_text(trimmed(part(s, i, pos)));
            let n = crate::embedding::bytes_of(v.as_str());
            if crate::text::str_is_empty(v.as_str()) || n > 40 {
                None
            } else {
                Some(v)
            }
        },
        None => None,
    }
}

pub fn valeur_avant(s: &str, libelle: &str) -> (r: Option<String>)
    ensures
        opt(r) == value_before(s@, libelle@),
{
    value_chars(to_chars(s).as_slice(), libelle)
}

/// How many characters from `i` on fit into `room` bytes.
pub open spec fn fitting(s: Seq<char>, room: int, i: int) -> int
    decreases s.len() - i,
{
    if 0 <= i < s.len() && char_bytes(s[i]) <= room {
        fitting(s, room - char_bytes(s[i]), i + 1)
    } else {
        i
    }
}

/// What is read of a tag's block: up to 400 bytes from its digest on.
pub open spec fn tag_window(block: Seq<char>) -> Seq<char> {
    match find(block, "class=\"font-mono\""@) {
        Some(k) => block.subrange(k, fitting(block, 400, k)),
        None => Seq::empty(),
    }
}

fn read_window(block: &[char]) -> (r: Vec<char>)
    ensures
        r@ == tag_window(block@),
{
    match index_of(block, to_chars("class=\"font-mono\"").as_slice()) {
        Some(k) => {
            proof {
                lemma_find_from(block@, "class=\"font-mono\""@, 0);
            }
            let mut room: usize = 400;
            let mut i: usize = k;
            while i < block.len() && char_byte_count(block[i]) <= room
                invariant
                    k <= i <= block.len(),
                    fitting(block@, 400, k as int) == fitting(block@, room as int, i as int),
                decreases block.len() - i,
            {
                room = room - char_byte_count(block[i]);
                i = i + 1;
            }
            copied(part(block, k, i))
        },
        None => {
            let v: Vec<char> = Vec::new();
            assert(v@ =~= Seq::<char>::empty());
            v
        },
    }
}

/// The tag that a block starts with.
pub open spec fn tag_name(block: Seq<char>) -> Seq<char> {
    match find(block, "\""@) {
        Some(i) => block.take(i),
        None => block,
    }
}

pub open spec fn tag_of(block: Seq<char>) -> TagView {
    let w = tag_window(block);
    let size_label = amount_of(w);
    TagView {
        tag: tag_name(block),
        bytes: match size_label {
            Some(l) => size_of_upper_spec(upper_case(trim(l))),
            None => None,
        },
        size_label,
        context: value_before(w, "context window"@),
        modality: value_before(w, "input"@),
    }
}

pub open spec fn knows_tag(v: Seq<TagView>, tag: Seq<char>) -> bool {
    exists|i: int| 0 <= i < v.len() && (#[trigger] v[i]).tag == tag
}

/// The tags of some blocks: each once, as it occurs first.
pub open spec fn tags_of(blocks: Seq<Seq<char>>) -> Seq<TagView>
    decreases blocks.len(),
{
    if blocks.len() == 0 {
        Seq::empty()
    } else {
        let so_far = tags_of(blocks.drop_last());
        let tag = tag_name(blocks.last());
        if tag.len() == 0 || knows_tag(so_far, tag) {
            so_far
        } else {
            so_far.push(tag_of(blocks.last()))
        }
    }
}

fn read_tag(block: &[char]) -> (r: OllamaTag)
    ensures
        r.view() == tag_of(block@),
{
    let tag = match index_of(block, to_chars("\"").as_slice()) {
        Some(i) => {
            proof {
                lemma_find_from(block@, "\""@, 0);
            }
            let p = part(block, 0, i);
            assert(p@ =~= block@.take(i as int));
            to_text(p)
        },
        None => to_text(block),
    };
    let w = read_window(block);
    let size_label = amount_text(w.as_slice());
    let bytes = match &size_label {
        Some(l) => parse_size(l.as_str()),
        None => None,
    };
    let t = OllamaTag {
        tag,
        bytes,
        size_label,
        context: value_chars(w.as_slice(), "context window"),
        modality: value_chars(w.as_slice(), "input"),
    };
    assert(t.view() =~= tag_of(block@));
    t
}

fn has_tag(v: &Vec<OllamaTag>, tag: &str) -> (r: bool)
    ensures
        r == knows_tag(tag_views(v@), tag@),
{
    let mut i: usize = 0;
    while i < v.len()
        invariant
            i <= v.len(),
            forall|k: int| 0 <= k < i ==> (#[trigger] tag_views(v@)[k]).tag != tag@,
        decreases v.len() - i,
    {
        if str_eq(v[i].tag.as_str(), tag) {
            assert(tag_views(v@)[i as int].tag == tag@);
            return true;
        }
        i = i + 1;
    }
    false
}

pub open spec fn tag_marker(model: Seq<char>) -> Seq<char> {
    "href=\"/library/"@ + model + ":"@
}

pub fn parse_tags(html: &str, model: &str) -> (r: Vec<OllamaTag>)
    ensures
        tag_views(r@) == tags_of(split(html@, tag_marker(model@)).skip(1)),
{
    proof {
        reveal_strlit("href=\"/library/");
    }
    let marker = to_chars(cat3("href=\"/library/", model, ":").as_str());
    let pieces = splitted(to_chars(html).as_slice(), marker.as_slice());
    let ghost all = char_views(pieces@);
    let mut out: Vec<OllamaTag> = Vec::new();
    let n: usize = pieces.len();
    assert(tag_views(out@) =~= Seq::<TagView>::empty());
    if n == 0 {
        proof {
            lemma_split_not_empty(html@, tag_marker(model@));
        }
        return out;
    }
    let ghost blocks = all.skip(1);
    let mut i: usize = 1;
    assert(blocks.take(0) =~= Seq::<Seq<char>>::empty());
    while i < n
        invariant
            1 <= i <= n,
            n == pieces@.len(),
            all == char_views(pieces@),
            blocks == all.skip(1),
            tag_views(out@) == tags_of(blocks.take(i - 1)),
        decreases n - i,
    {
        assert(blocks.take(i as int).drop_last() =~= blocks.take(i - 1));
        assert(blocks.take(i as int).last() == pieces@[i as int]@);
        let ghost before = tag_views(out@);
        let t = read_tag(pieces[i].as_slice());
        if !crate::text::str_is_empty(t.tag.as_str()) && !has_tag(&out, t.tag.as_str()) {
            let ghost tv = t.view();
            out.push(t);
            assert(tag_views(out@) =~= before.push(tv));
        }
        i = i + 1;
    }
    assert(blocks.take(n - 1) =~= blocks);
    out
}

pub open spec fn no_tag_twice(v: Seq<TagView>) -> bool {
    forall|i: int, j: int| 0 <= i < j < v.len() ==> (#[trigger] v[i]).tag != (#[trigger] v[j]).tag
}

/// Though a page shows each tag twice, it is listed once.
pub proof fn law_a_tag_is_listed_once(blocks: Seq<Seq<char>>)
    ensures
        no_tag_twice(tags_of(blocks)),
    decreases blocks.len(),
{
    if blocks.len() > 0 {
        law_a_tag_is_listed_once(blocks.drop_last());
    }
}

/// Where the tags of a model are listed.
pub fn tags_url(model: &str) -> (r: String)
    ensures
        r@ == LIBRARY_URL@ + "/"@ + model@ + "/tags"@,
{
    crate::text::cat4(LIBRARY_URL, "/", model, "/tags")
}

// ---------------------------------------------------------------------------
// What is kept
// ---------------------------------------------------------------------------

/// What was kept is still good: it is not asked anew, and it is not too old.
pub fn is_fresh(fetched_at: i64, now: i64, ttl: i64, refresh: bool) -> (r: bool)
    ensures
        r == (!refresh && now - fetched_at < ttl),
{
    !refresh && (now as i128 - fetched_at as i128) < ttl as i128
}

/// What is served after a page was asked for.
#[derive(Debug, PartialEq, Eq, Structural)]
pub enum Served {
    /// What was read, which is also kept.
    Fetched,
    /// What was kept, though it is old.
    Kept,
    /// Nothing: the page could not be read.
    Unreadable,
    /// Nothing: the page could not be had.
    Unreachable,
}

/// What is served: `read` is how many entries the page gave, `None` where it could not be
/// had. An empty page counts as one that could not be read, and never replaces what was kept.
pub fn serve(read: Option<usize>, kept: bool) -> (r: Served)
    ensures
        r == (if read matches Some(n) && n > 0 {
            Served::Fetched
        } else if kept {
            Served::Kept
        } else if read is Some {
            Served::Unreadable
        } else {
            Served::Unreachable
        }),
{
    match read {
        Some(n) => if n > 0 {
            Served::Fetched
        } else if kept {
            Served::Kept
        } else {
            Served::Unreadable
        },
        None => if kept {
            Served::Kept
        } else {
            Served::Unreachable
        },
    }
}

proof fn lemma_find_shifts(hay: Seq<char>, pat: Seq<char>, at: int, from: int)
    requires
        0 <= at,
        0 <= from,
        at + from <= hay.len(),
    ensures
        find_from(hay, pat, at + from) == (match find_from(hay.skip(at), pat, from) {
            Some(i) => Some(at + i),
            None => None,
        }),
    decreases hay.len() - at - from + 1,
{
    let t = hay.skip(at);
    if from + pat.len() <= t.len() {
        assert(t.subrange(from, from + pat.len()) =~= hay.subrange(
            at + from,
            at + from + pat.len(),
        ));
        if !matches_at(t, pat, from) {
            if from < t.len() {
                lemma_find_shifts(hay, pat, at, from + 1);
            }
        }
    }
}

/// What is cut out stands between the first start and the end that follows it: the end does
/// not occur in it.
pub proof fn law_a_cut_lies_between_its_marks(
    hay: Seq<char>,
    start: Seq<char>,
    end: Seq<char>,
) -> (i: int)
    requires
        cut(hay, start, end) is Some,
        end.len() > 0,
    ensures
        ({
            let x = cut(hay, start, end)->Some_0;
            &&& matches_at(hay, start, i)
            &&& forall|k: int| 0 <= k < i ==> !matches_at(hay, start, k)
            &&& hay.subrange(i + start.len(), i + start.len() + x.len()) == x
            &&& matches_at(hay, end, (i + start.len() + x.len()) as int)
            &&& !contains(x, end)
        }),
{
    lemma_find_from(hay, start, 0);
    let i = find(hay, start)->Some_0;
    lemma_find_from(hay, end, i + start.len());
    let j = find_from(hay, end, i + start.len())->Some_0;
    let x = hay.subrange(i + start.len(), j);
    lemma_find_from(x, end, 0);
    if let Some(k) = find(x, end) {
        assert(hay.subrange(i + start.len() + k, i + start.len() + k + end.len()) =~= x.subrange(
            k,
            k + end.len(),
        ));
        assert(matches_at(hay, end, i + start.len() + k));
        assert(false);
    }
    i
}

/// What is cut out one after the other: the first cut, then the cuts of what follows its end.
/// There is none where there is no cut.
pub proof fn law_cuts_go_on_to_the_end(hay: Seq<char>, start: Seq<char>, end: Seq<char>)
    requires
        start.len() > 0,
        end.len() > 0,
    ensures
        cut(hay, start, end) is None ==> cuts(hay, start, end).len() == 0,
        cut(hay, start, end) matches Some(x) ==> cuts(hay, start, end) == seq![x] + cuts(
            hay.skip(find(hay, start)->Some_0 + start.len() + x.len() + end.len()),
            start,
            end,
        ),
{
    lemma_find_from(hay, start, 0);
    if let Some(i) = find(hay, start) {
        lemma_find_from(hay, end, i + start.len());
        if let Some(j) = find_from(hay, end, i + start.len()) {
            lemma_cuts_shift(hay, start, end, j + end.len(), 0);
        }
    }
}

proof fn lemma_cuts_shift(hay: Seq<char>, start: Seq<char>, end: Seq<char>, at: int, from: int)
    requires
        start.len() > 0,
        end.len() > 0,
        0 <= at,
        0 <= from,
        at + from <= hay.len(),
    ensures
        cuts_from(hay, start, end, at + from) == cuts_from(hay.skip(at), start, end, from),
    decreases hay.len() - at - from,
{
    let t = hay.skip(at);
    lemma_find_shifts(hay, start, at, from);
    lemma_find_from(t, start, from);
    if let Some(i) = find_from(t, start, from) {
        lemma_find_shifts(hay, end, at, i + start.len());
        lemma_find_from(t, end, i + start.len());
        if let Some(j) = find_from(t, end, i + start.len()) {
            lemma_cuts_shift(hay, start, end, at, j + end.len());
            assert(hay.subrange(at + i + start.len(), at + j) =~= t.subrange(i + start.len(), j));
            assert(at + (i + start.len()) == at + i + start.len());
            assert(at + (j + end.len()) == at + j + end.len());
        }
    }
}

/// Every badge that shows a text is kept, in order, and of the badges those that tell a size
/// are the sizes.
pub proof fn law_every_badge_is_read(fragments: Seq<Seq<char>>, texts: Seq<Seq<char>>)
    ensures
        badges(fragments) == fragments.filter(|f: Seq<char>| badge_of(f) is Some).map_values(
            |f: Seq<char>| badge_of(f)->Some_0,
        ),
        sizes_of(texts) == texts.map_values(|t: Seq<char>| lower_case(t)).filter(
            |l: Seq<char>| is_model_size(l),
        ),
    decreases fragments.len() + texts.len(),
{
    reveal(Seq::filter);
    let f = |f: Seq<char>| badge_of(f) is Some;
    let g = |f: Seq<char>| badge_of(f)->Some_0;
    let low = |t: Seq<char>| lower_case(t);
    let size = |l: Seq<char>| is_model_size(l);
    if fragments.len() > 0 {
        let less = fragments.drop_last();
        law_every_badge_is_read(less, texts);
        if f(fragments.last()) {
            assert(fragments.filter(f).map_values(g) =~= less.filter(f).map_values(g).push(
                g(fragments.last()),
            ));
        }
    } else if texts.len() > 0 {
        law_every_badge_is_read(fragments, texts.drop_last());
        assert(texts.map_values(low).drop_last() =~= texts.drop_last().map_values(low));
        assert(badges(fragments) =~= fragments.filter(f).map_values(g));
    } else {
        assert(badges(fragments) =~= fragments.filter(f).map_values(g));
        assert(sizes_of(texts) =~= texts.map_values(low).filter(size));
    }
}

/// Every card that shows a model gives that model, in the order of the page.
pub proof fn law_every_card_is_read(cards: Seq<Seq<char>>)
    ensures
        models_of(cards) == cards.filter(|c: Seq<char>| model_of(c) is Some).map_values(
            |c: Seq<char>| model_of(c)->Some_0,
        ),
    decreases cards.len(),
{
    reveal(Seq::filter);
    let f = |c: Seq<char>| model_of(c) is Some;
    let g = |c: Seq<char>| model_of(c)->Some_0;
    if cards.len() > 0 {
        let less = cards.drop_last();
        law_every_card_is_read(less);
        if f(cards.last()) {
            assert(cards.filter(f).map_values(g) =~= less.filter(f).map_values(g).push(
                g(cards.last()),
            ));
        }
    } else {
        assert(models_of(cards) =~= cards.filter(f).map_values(g));
    }
}

/// Every tag of a page is listed, as the first of its blocks shows it.
pub proof fn law_every_tag_is_listed(blocks: Seq<Seq<char>>, i: int)
    requires
        0 <= i < blocks.len(),
        tag_name(blocks[i]).len() > 0,
        forall|j: int| 0 <= j < i ==> tag_name(#[trigger] blocks[j]) != tag_name(blocks[i]),
    ensures
        tags_of(blocks).contains(tag_of(blocks[i])),
    decreases blocks.len(),
{
    let less = blocks.drop_last();
    let before = tags_of(less);
    let after = tags_of(blocks);
    if i < less.len() {
        assert(less[i] == blocks[i]);
        assert forall|j: int| 0 <= j < i implies tag_name(#[trigger] less[j]) != tag_name(less[i]) by {
            assert(less[j] == blocks[j]);
        }
        law_every_tag_is_listed(less, i);
        let k = choose|k: int| 0 <= k < before.len() && before[k] == tag_of(less[i]);
        assert(after[k] == tag_of(blocks[i]));
    } else {
        let tag = tag_name(blocks[i]);
        if knows_tag(before, tag) {
            let k = choose|k: int| 0 <= k < before.len() && (#[trigger] before[k]).tag == tag;
            let j = lemma_listed_from(less, k);
            assert(less[j] == blocks[j]);
            assert(false);
        }
        assert(after[before.len() as int] == tag_of(blocks[i]));
    }
}

proof fn lemma_listed_from(blocks: Seq<Seq<char>>, k: int) -> (j: int)
    requires
        0 <= k < tags_of(blocks).len(),
    ensures
        0 <= j < blocks.len(),
        tags_of(blocks)[k] == tag_of(blocks[j]),
    decreases blocks.len(),
{
    let less = blocks.drop_last();
    if k < tags_of(less).len() {
        let j = lemma_listed_from(less, k);
        assert(less[j] == blocks[j]);
        j
    } else {
        blocks.len() - 1
    }
}

/// The first title that is a date tells when a model was updated.
pub proof fn law_the_first_date_counts(titles: Seq<Seq<char>>, from: int, k: int)
    requires
        0 <= from <= k <= titles.len(),
        forall|i: int| from <= i < k ==> date_day(#[trigger] titles[i]) is None,
        k < titles.len() ==> date_day(titles[k]) is Some,
    ensures
        first_date(titles, from) == (if k < titles.len() {
            Some(titles[k])
        } else {
            None
        }),
    decreases k - from,
{
    if from < k {
        assert(date_day(titles[from]) is None);
        law_the_first_date_counts(titles, from + 1, k);
    }
}

/// A size is the number before its unit, in bytes: a thousand for each step of the units.
pub proof fn law_a_size_is_in_bytes(a: Seq<char>)
    requires
        all_digits(a),
    ensures
        size_of_upper_spec(a + "KB"@) == Some(at_most_max(digits_value(a) * 1000)),
        size_of_upper_spec(a + "MB"@) == Some(at_most_max(digits_value(a) * 1000000)),
        size_of_upper_spec(a + "GB"@) == Some(at_most_max(digits_value(a) * 1000000000)),
        size_of_upper_spec(a + "TB"@) == Some(at_most_max(digits_value(a) * 1000000000000)),
{
    reveal_strlit("KB");
    reveal_strlit("MB");
    reveal_strlit("GB");
    reveal_strlit("TB");
    lemma_powers();
    lemma_size(a, "KB"@, 3);
    lemma_size(a, "MB"@, 6);
    lemma_size(a, "GB"@, 9);
    lemma_size(a, "TB"@, 12);
}

proof fn lemma_powers()
    ensures
        pow10(3) == 1000,
        pow10(6) == 1000000,
        pow10(9) == 1000000000,
        pow10(12) == 1000000000000,
{
    reveal_with_fuel(pow10, 13);
}

proof fn lemma_digits_are_trimmed(a: Seq<char>)
    requires
        all_digits(a),
    ensures
        trim(a) == a,
{
    assert(is_digit(a[0]));
    assert(is_digit(a[a.len() - 1]));
}

proof fn lemma_size(a: Seq<char>, unit: Seq<char>, p: int)
    requires
        all_digits(a),
        unit.len() == 2,
        p >= 0,
        unit[1] == 'B',
        unit[0] == 'K' && p == 3 || unit[0] == 'M' && p == 6 || unit[0] == 'G' && p == 9 || unit[0]
            == 'T' && p == 12,
    ensures
        size_of_upper_spec(a + unit) == Some(
            at_most_max(digits_value(a) * pow10(p as nat)),
        ),
{
    reveal_strlit("KB");
    reveal_strlit("MB");
    reveal_strlit("GB");
    reveal_strlit("TB");
    let l = a + unit;
    let n = a.len() as int;
    let tail = l.subrange(n, n + 2);
    assert(tail =~= unit);
    assert(tail[0] == unit[0]);
    assert("KB"@[0] == 'K' && "MB"@[0] == 'M' && "GB"@[0] == 'G' && "TB"@[0] == 'T');
    if p == 3 {
        assert(unit =~= "KB"@);
    } else if p == 6 {
        assert(unit =~= "MB"@);
    } else if p == 9 {
        assert(unit =~= "GB"@);
    } else {
        assert(unit =~= "TB"@);
    }
    assert(without_suffix(l, 2) =~= a);
    lemma_digits_are_trimmed(a);
    law_a_number_is_read_by_its_digits(a, a);
}

} // verus!
