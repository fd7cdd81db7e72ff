//! Text as sequences of characters: searching, trimming, splitting, replacing and
//! rendering. The other modules state their contracts over the functions of this one.

use vstd::prelude::*;
use vstd::slice::slice_subrange;
use vstd::utf8::is_ascii_chars;

verus! {

/// Appends one character; the documentation of `String::push` says no more.
pub assume_specification[ String::push ](s: &mut String, c: char)
    ensures
        final(s)@ == old(s)@.push(c),
;

/// What `str::to_lowercase` returns.
pub uninterp spec fn lowercase(s: Seq<char>) -> Seq<char>;

/// What `str::to_uppercase` returns.
pub uninterp spec fn uppercase(s: Seq<char>) -> Seq<char>;

/// Calls `str::to_lowercase`. The result is named by `lowercase`; on ASCII text it is the
/// text with `A` to `Z` lowered and everything else kept.
#[verifier::external_body]
fn to_lower(s: &str) -> (r: String)
    ensures
        r@ == lowercase(s@),
        is_ascii_chars(s@) ==> r@ == ascii_lower_all(s@),
{
    s.to_lowercase()
}

/// A text in lower case: of ASCII text the letters `A` to `Z` lowered, of any other what
/// `str::to_lowercase` returns.
pub open spec fn lower_case(s: Seq<char>) -> Seq<char> {
    if is_ascii_chars(s) {
        ascii_lower_all(s)
    } else {
        lowercase(s)
    }
}

pub fn lowered(s: &str) -> (r: String)
    ensures
        r@ == lower_case(s@),
{
    to_lower(s)
}

/// Calls `str::to_uppercase`. The result is named by `uppercase`; on ASCII text it is the
/// text with `a` to `z` raised and everything else kept.
#[verifier::external_body]
fn to_upper(s: &str) -> (r: String)
    ensures
        r@ == uppercase(s@),
        is_ascii_chars(s@) ==> r@ == ascii_upper_all(s@),
{
    s.to_uppercase()
}

/// A text in upper case: of ASCII text the letters `a` to `z` raised, of any other what
/// `str::to_uppercase` returns.
pub open spec fn upper_case(s: Seq<char>) -> Seq<char> {
    if is_ascii_chars(s) {
        ascii_upper_all(s)
    } else {
        uppercase(s)
    }
}

pub fn raised(s: &str) -> (r: String)
    ensures
        r@ == upper_case(s@),
{
    to_upper(s)
}

// ---------------------------------------------------------------------------
// Characters
// ---------------------------------------------------------------------------

/// The characters with the Unicode property White_Space.
pub open spec fn is_space(c: char) -> bool {
    ||| '\u{9}' <= c <= '\u{d}'
    ||| c == '\u{20}'
    ||| c == '\u{85}'
    ||| c == '\u{a0}'
    ||| c == '\u{1680}'
    ||| '\u{2000}' <= c <= '\u{200a}'
    ||| c == '\u{2028}'
    ||| c == '\u{2029}'
    ||| c == '\u{202f}'
    ||| c == '\u{205f}'
    ||| c == '\u{3000}'
}

pub fn char_is_space(c: char) -> (r: bool)
    ensures
        r == is_space(c),
{
    ('\u{9}' <= c && c <= '\u{d}') || c == '\u{20}' || c == '\u{85}' || c == '\u{a0}' || c
        == '\u{1680}' || ('\u{2000}' <= c && c <= '\u{200a}') || c == '\u{2028}' || c == '\u{2029}'
        || c == '\u{202f}' || c == '\u{205f}' || c == '\u{3000}'
}

pub open spec fn is_digit(c: char) -> bool {
    '0' <= c <= '9'
}

pub open spec fn is_ascii_letter(c: char) -> bool {
    ('a' <= c <= 'z') || ('A' <= c <= 'Z')
}

pub fn char_is_digit(c: char) -> (r: bool)
    ensures
        r == is_digit(c),
{
    '0' <= c && c <= '9'
}

pub fn char_is_ascii_letter(c: char) -> (r: bool)
    ensures
        r == is_ascii_letter(c),
{
    ('a' <= c && c <= 'z') || ('A' <= c && c <= 'Z')
}

pub open spec fn ascii_lower(c: char) -> char {
    if 'A' <= c <= 'Z' {
        ((c as u32 + 32) as u32) as char
    } else {
        c
    }
}

pub open spec fn ascii_upper(c: char) -> char {
    if 'a' <= c <= 'z' {
        ((c as u32 - 32) as u32) as char
    } else {
        c
    }
}

pub open spec fn ascii_lower_all(s: Seq<char>) -> Seq<char> {
    Seq::new(s.len(), |i: int| ascii_lower(s[i]))
}

pub open spec fn ascii_upper_all(s: Seq<char>) -> Seq<char> {
    Seq::new(s.len(), |i: int| ascii_upper(s[i]))
}

pub fn char_ascii_lower(c: char) -> (r: char)
    ensures
        r == ascii_lower(c),
{
    if 'A' <= c && c <= 'Z' {
        ((c as u8) + 32u8) as char
    } else {
        c
    }
}

/// The number of bytes that UTF-8 takes for a character.
pub open spec fn char_bytes(c: char) -> nat {
    if (c as u32) < 0x80 {
        1
    } else if (c as u32) < 0x800 {
        2
    } else if (c as u32) < 0x10000 {
        3
    } else {
        4
    }
}

/// The number of bytes that UTF-8 takes for a text.
pub open spec fn byte_len(s: Seq<char>) -> nat
    decreases s.len(),
{
    if s.len() == 0 {
        0
    } else {
        byte_len(s.drop_last()) + char_bytes(s.last())
    }
}

pub fn char_byte_count(c: char) -> (r: usize)
    ensures
        r == char_bytes(c),
        1 <= r <= 4,
{
    let n: u32 = c as u32;
    if n < 0x80 {
        1
    } else if n < 0x800 {
        2
    } else if n < 0x10000 {
        3
    } else {
        4
    }
}

// ---------------------------------------------------------------------------
// Between `str`, `String` and character slices
// ---------------------------------------------------------------------------

pub fn to_chars(s: &str) -> (r: Vec<char>)
    ensures
        r@ == s@,
{
    let mut out: Vec<char> = Vec::new();
    for c in it: s.chars()
        invariant
            out@ == it.seq().take(it.index() as int),
            it.seq() == s@,
    {
        out.push(c);
    }
    out
}

pub fn to_text(s: &[char]) -> (r: String)
    ensures
        r@ == s@,
{
    let mut out = String::new();
    let mut i: usize = 0;
    while i < s.len()
        invariant
            i <= s.len(),
            out@ == s@.take(i as int),
        decreases s.len() - i,
    {
        out.push(s[i]);
        i = i + 1;
        assert(s@.take(i as int) =~= s@.take(i - 1).push(s@[i - 1]));
    }
    assert(s@.take(i as int) =~= s@);
    out
}

/// The characters of `s` from `i` up to `j`.
pub fn part(s: &[char], i: usize, j: usize) -> (r: &[char])
    requires
        i <= j <= s@.len(),
    ensures
        r@ == s@.subrange(i as int, j as int),
{
    slice_subrange(s, i, j)
}

pub fn chars_eq(a: &[char], b: &[char]) -> (r: bool)
    ensures
        r == (a@ == b@),
{
    if a.len() != b.len() {
        return false;
    }
    let mut i: usize = 0;
    while i < a.len()
        invariant
            i <= a.len(),
            a.len() == b.len(),
            forall|k: int| 0 <= k < i ==> a@[k] == b@[k],
        decreases a.len() - i,
    {
        if a[i] != b[i] {
            return false;
        }
        i = i + 1;
    }
    assert(a@ =~= b@);
    true
}

pub fn str_eq(a: &str, b: &str) -> (r: bool)
    ensures
        r == (a@ == b@),
{
    let x = to_chars(a);
    let y = to_chars(b);
    chars_eq(x.as_slice(), y.as_slice())
}

pub fn str_is_empty(s: &str) -> (r: bool)
    ensures
        r == (s@.len() == 0),
{
    s.is_empty()
}

// ---------------------------------------------------------------------------
// Searching
// ---------------------------------------------------------------------------

/// `pat` stands in `hay` at position `i`.
pub open spec fn matches_at(hay: Seq<char>, pat: Seq<char>, i: int) -> bool {
    0 <= i && i + pat.len() <= hay.len() && hay.subrange(i, i + pat.len()) == pat
}

/// The first position from `from` on at which `pat` stands in `hay`.
pub open spec fn find_from(hay: Seq<char>, pat: Seq<char>, from: int) -> Option<int>
    decreases hay.len() + 1 - from,
{
    if from < 0 || from + pat.len() > hay.len() {
        None
    } else if matches_at(hay, pat, from) {
        Some(from)
    } else {
        find_from(hay, pat, from + 1)
    }
}

/// The first position at which `pat` stands in `hay`.
pub open spec fn find(hay: Seq<char>, pat: Seq<char>) -> Option<int> {
    find_from(hay, pat, 0)
}

/// The last position up to `upto` at which `pat` stands in `hay`.
pub open spec fn rfind_upto(hay: Seq<char>, pat: Seq<char>, upto: int) -> Option<int>
    decreases upto + 1,
{
    if upto < 0 {
        None
    } else if matches_at(hay, pat, upto) {
        Some(upto)
    } else {
        rfind_upto(hay, pat, upto - 1)
    }
}

/// The last position at which `pat` stands in `hay`.
pub open spec fn rfind(hay: Seq<char>, pat: Seq<char>) -> Option<int> {
    rfind_upto(hay, pat, hay.len() as int)
}

pub open spec fn contains(hay: Seq<char>, pat: Seq<char>) -> bool {
    find(hay, pat) is Some
}

pub open spec fn starts_with(s: Seq<char>, pat: Seq<char>) -> bool {
    matches_at(s, pat, 0)
}

pub open spec fn ends_with(s: Seq<char>, pat: Seq<char>) -> bool {
    matches_at(s, pat, s.len() - pat.len())
}

/// What `find_from` gives lies in the text, is a match, and has no match before it.
pub proof fn lemma_find_from(hay: Seq<char>, pat: Seq<char>, from: int)
    requires
        0 <= from,
    ensures
        find_from(hay, pat, from) matches Some(i) ==> from <= i && i + pat.len() <= hay.len()
            && matches_at(hay, pat, i) && (forall|k: int| from <= k < i ==> !matches_at(hay, pat, k)),
        find_from(hay, pat, from) is None ==> (forall|k: int|
            from <= k ==> !matches_at(hay, pat, k)),
    decreases hay.len() + 1 - from,
{
    if from + pat.len() > hay.len() {
    } else if matches_at(hay, pat, from) {
    } else {
        lemma_find_from(hay, pat, from + 1);
    }
}

/// What `rfind_upto` gives lies in the text, is a match, and has no match after it.
pub proof fn lemma_rfind_upto(hay: Seq<char>, pat: Seq<char>, upto: int)
    ensures
        rfind_upto(hay, pat, upto) matches Some(i) ==> 0 <= i <= upto && i + pat.len() <= hay.len()
            && matches_at(hay, pat, i) && (forall|k: int| i < k <= upto ==> !matches_at(hay, pat, k)),
        rfind_upto(hay, pat, upto) is None ==> (forall|k: int|
            k <= upto ==> !matches_at(hay, pat, k)),
    decreases upto + 1,
{
    if upto >= 0 && !matches_at(hay, pat, upto) {
        lemma_rfind_upto(hay, pat, upto - 1);
    }
}

pub fn at(hay: &[char], pat: &[char], i: usize) -> (r: bool)
    ensures
        r == matches_at(hay@, pat@, i as int),
{
    if i > hay.len() || pat.len() > hay.len() - i {
        return false;
    }
    let mut k: usize = 0;
    while k < pat.len()
        invariant
            k <= pat.len(),
            i + pat.len() <= hay.len(),
            forall|m: int| 0 <= m < k ==> hay@[i + m] == pat@[m],
        decreases pat.len() - k,
    {
        if hay[i + k] != pat[k] {
            assert(hay@.subrange(i as int, i + pat@.len())[k as int] != pat@[k as int]);
            return false;
        }
        k = k + 1;
    }
    assert(hay@.subrange(i as int, i + pat@.len()) =~= pat@);
    true
}

pub fn index_from(hay: &[char], pat: &[char], from: usize) -> (r: Option<usize>)
    ensures
        match r {
            Some(i) => find_from(hay@, pat@, from as int) == Some(i as int) && from <= i && i
                + pat@.len() <= hay@.len(),
            None => find_from(hay@, pat@, from as int) is None,
        },
{
    if from > hay.len() || pat.len() > hay.len() - from {
        return None;
    }
    let last: usize = hay.len() - pat.len();
    let mut i: usize = from;
    while i <= last
        invariant
            from <= i <= last + 1,
            last + pat@.len() == hay@.len(),
            find_from(hay@, pat@, from as int) == find_from(hay@, pat@, i as int),
        decreases last + 1 - i,
    {
        if at(hay, pat, i) {
            return Some(i);
        }
        if i == last {
            assert(find_from(hay@, pat@, i as int) == find_from(hay@, pat@, i + 1));
            return None;
        }
        i = i + 1;
    }
    None
}

pub fn index_of(hay: &[char], pat: &[char]) -> (r: Option<usize>)
    ensures
        match r {
            Some(i) => find(hay@, pat@) == Some(i as int) && i + pat@.len() <= hay@.len(),
            None => find(hay@, pat@) is None,
        },
{
    index_from(hay, pat, 0)
}

pub fn last_index_of(hay: &[char], pat: &[char]) -> (r: Option<usize>)
    ensures
        match r {
            Some(i) => rfind(hay@, pat@) == Some(i as int) && i + pat@.len() <= hay@.len(),
            None => rfind(hay@, pat@) is None,
        },
{
    let mut i: usize = hay.len();
    loop
        invariant
            i <= hay.len(),
            rfind(hay@, pat@) == rfind_upto(hay@, pat@, i as int),
        decreases i,
    {
        if at(hay, pat, i) {
            return Some(i);
        }
        if i == 0 {
            assert(rfind_upto(hay@, pat@, -1) is None);
            return None;
        }
        i = i - 1;
    }
}

pub fn has(hay: &[char], pat: &[char]) -> (r: bool)
    ensures
        r == contains(hay@, pat@),
{
    match index_of(hay, pat) {
        Some(_) => true,
        None => false,
    }
}

pub fn str_contains(hay: &str, pat: &str) -> (r: bool)
    ensures
        r == contains(hay@, pat@),
{
    let h = to_chars(hay);
    let p = to_chars(pat);
    has(h.as_slice(), p.as_slice())
}

pub fn str_starts_with(s: &str, pat: &str) -> (r: bool)
    ensures
        r == starts_with(s@, pat@),
{
    let h = to_chars(s);
    let p = to_chars(pat);
    at(h.as_slice(), p.as_slice(), 0)
}

pub fn ends(s: &[char], pat: &[char]) -> (r: bool)
    ensures
        r == ends_with(s@, pat@),
        r ==> pat@.len() <= s@.len(),
{
    if pat.len() > s.len() {
        false
    } else {
        at(s, pat, s.len() - pat.len())
    }
}

pub fn str_ends_with(s: &str, pat: &str) -> (r: bool)
    ensures
        r == ends_with(s@, pat@),
{
    let h = to_chars(s);
    let p = to_chars(pat);
    ends(h.as_slice(), p.as_slice())
}

// ---------------------------------------------------------------------------
// Trimming
// ---------------------------------------------------------------------------

pub open spec fn trim_start(s: Seq<char>) -> Seq<char>
    decreases s.len(),
{
    if s.len() > 0 && is_space(s[0]) {
        trim_start(s.skip(1))
    } else {
        s
    }
}

pub open spec fn trim_end(s: Seq<char>) -> Seq<char>
    decreases s.len(),
{
    if s.len() > 0 && is_space(s.last()) {
        trim_end(s.drop_last())
    } else {
        s
    }
}

/// `s` without the white space at both ends.
pub open spec fn trim(s: Seq<char>) -> Seq<char> {
    trim_end(trim_start(s))
}

/// `s` without the characters `a` and `b` at its end.
pub open spec fn trim_end_of(s: Seq<char>, a: char, b: char) -> Seq<char>
    decreases s.len(),
{
    if s.len() > 0 && (s.last() == a || s.last() == b) {
        trim_end_of(s.drop_last(), a, b)
    } else {
        s
    }
}

/// `s` without the text `pat` at its end, however often it stands there.
pub open spec fn trim_end_pat(s: Seq<char>, pat: Seq<char>) -> Seq<char>
    decreases s.len(),
{
    if pat.len() > 0 && ends_with(s, pat) {
        trim_end_pat(s.take(s.len() - pat.len()), pat)
    } else {
        s
    }
}

pub fn str_trim_end_pat(s: &str, pat: &str) -> (r: String)
    ensures
        r@ == trim_end_pat(s@, pat@),
{
    let c = to_chars(s);
    let p = to_chars(pat);
    let mut n: usize = c.len();
    assert(s@.take(n as int) =~= s@);
    if p.len() == 0 {
        return s.to_owned();
    }
    loop
        invariant
            n <= c.len(),
            c@ == s@,
            p@ == pat@,
            p@.len() > 0,
            trim_end_pat(s@, pat@) == trim_end_pat(s@.take(n as int), pat@),
        decreases n,
    {
        let rest = part(c.as_slice(), 0, n);
        assert(rest@ =~= s@.take(n as int));
        if !ends(rest, p.as_slice()) {
            return to_text(rest);
        }
        assert(s@.take(n as int).take(n - p@.len()) =~= s@.take(n - p@.len()));
        n = n - p.len();
    }
}

pub fn trimmed_start(s: &[char]) -> (r: &[char])
    ensures
        r@ == trim_start(s@),
        r@.len() <= s@.len(),
{
    let mut i: usize = 0;
    assert(s@.skip(0) =~= s@);
    while i < s.len() && char_is_space(s[i])
        invariant
            i <= s.len(),
            trim_start(s@) == trim_start(s@.skip(i as int)),
        decreases s.len() - i,
    {
        assert(s@.skip(i as int).skip(1) =~= s@.skip(i + 1));
        i = i + 1;
    }
    assert(s@.skip(i as int) =~= s@.subrange(i as int, s@.len() as int));
    part(s, i, s.len())
}

pub fn trimmed_end(s: &[char]) -> (r: &[char])
    ensures
        r@ == trim_end(s@),
        r@.len() <= s@.len(),
{
    let mut n: usize = s.len();
    assert(s@.take(n as int) =~= s@);
    while n > 0 && char_is_space(s[n - 1])
        invariant
            n <= s.len(),
            trim_end(s@) == trim_end(s@.take(n as int)),
        decreases n,
    {
        assert(s@.take(n as int).drop_last() =~= s@.take(n - 1));
        n = n - 1;
    }
    assert(s@.take(n as int) =~= s@.subrange(0, n as int));
    part(s, 0, n)
}

pub fn trimmed(s: &[char]) -> (r: &[char])
    ensures
        r@ == trim(s@),
        r@.len() <= s@.len(),
{
    trimmed_end(trimmed_start(s))
}

pub fn trimmed_end_of(s: &[char], a: char, b: char) -> (r: &[char])
    ensures
        r@ == trim_end_of(s@, a, b),
        r@.len() <= s@.len(),
{
    let mut n: usize = s.len();
    assert(s@.take(n as int) =~= s@);
    while n > 0 && (s[n - 1] == a || s[n - 1] == b)
        invariant
            n <= s.len(),
            trim_end_of(s@, a, b) == trim_end_of(s@.take(n as int), a, b),
        decreases n,
    {
        assert(s@.take(n as int).drop_last() =~= s@.take(n - 1));
        n = n - 1;
    }
    assert(s@.take(n as int) =~= s@.subrange(0, n as int));
    part(s, 0, n)
}

pub fn str_trim(s: &str) -> (r: String)
    ensures
        r@ == trim(s@),
{
    let c = to_chars(s);
    to_text(trimmed(c.as_slice()))
}

pub fn str_trim_end_of(s: &str, a: char, b: char) -> (r: String)
    ensures
        r@ == trim_end_of(s@, a, b),
{
    let c = to_chars(s);
    to_text(trimmed_end_of(c.as_slice(), a, b))
}

/// `s` is nothing but white space.
pub open spec fn is_blank(s: Seq<char>) -> bool {
    trim(s).len() == 0
}

pub fn str_is_blank(s: &str) -> (r: bool)
    ensures
        r == is_blank(s@),
{
    let c = to_chars(s);
    trimmed(c.as_slice()).len() == 0
}

// ---------------------------------------------------------------------------
// Replacing, splitting, joining
// ---------------------------------------------------------------------------

/// `s` with every `from` turned into `to`.
pub open spec fn swap_char(s: Seq<char>, from: char, to: char) -> Seq<char> {
    Seq::new(s.len(), |i: int| if s[i] == from { to } else { s[i] })
}

pub fn swapped_char(s: &[char], from: char, to: char) -> (r: Vec<char>)
    ensures
        r@ == swap_char(s@, from, to),
{
    let mut out: Vec<char> = Vec::new();
    let mut i: usize = 0;
    while i < s.len()
        invariant
            i <= s.len(),
            out@ == swap_char(s@, from, to).take(i as int),
        decreases s.len() - i,
    {
        if s[i] == from {
            out.push(to);
        } else {
            out.push(s[i]);
        }
        i = i + 1;
        assert(out@ =~= swap_char(s@, from, to).take(i as int));
    }
    assert(out@ =~= swap_char(s@, from, to));
    out
}

/// `hay` from `from` on, with each `pat` in it, taken from left to right without
/// overlap, turned into `with`.
pub open spec fn replace_from(hay: Seq<char>, pat: Seq<char>, with: Seq<char>, from: int) -> Seq<char>
    recommends
        pat.len() > 0,
        0 <= from <= hay.len(),
    decreases hay.len() - from,
{
    match find_from(hay, pat, from) {
        Some(i) if from <= i && pat.len() > 0 && i + pat.len() <= hay.len() => hay.subrange(from, i)
            + with + replace_from(hay, pat, with, i + pat.len()),
        _ => hay.subrange(from, hay.len() as int),
    }
}

pub open spec fn replace_all(hay: Seq<char>, pat: Seq<char>, with: Seq<char>) -> Seq<char> {
    replace_from(hay, pat, with, 0)
}

pub fn push_all(out: &mut Vec<char>, s: &[char])
    ensures
        final(out)@ == old(out)@ + s@,
{
    let mut i: usize = 0;
    while i < s.len()
        invariant
            i <= s.len(),
            out@ == old(out)@ + s@.take(i as int),
        decreases s.len() - i,
    {
        out.push(s[i]);
        i = i + 1;
        assert(s@.take(i as int) =~= s@.take(i - 1).push(s@[i - 1]));
    }
    assert(s@.take(i as int) =~= s@);
}

pub fn replaced(hay: &[char], pat: &[char], with: &[char]) -> (r: Vec<char>)
    requires
        pat@.len() > 0,
    ensures
        r@ == replace_all(hay@, pat@, with@),
{
    let mut out: Vec<char> = Vec::new();
    let n: usize = hay.len();
    let mut from: usize = 0;
    loop
        invariant
            pat@.len() > 0,
            from <= hay@.len(),
            n == hay@.len(),
            replace_all(hay@, pat@, with@) == out@ + replace_from(hay@, pat@, with@, from as int),
        decreases hay@.len() - from,
    {
        match index_from(hay, pat, from) {
            Some(i) => {
                let ghost before = out@;
                push_all(&mut out, part(hay, from, i));
                push_all(&mut out, with);
                let ghost rest = replace_from(hay@, pat@, with@, i + pat@.len());
                assert(out@ + rest =~= before + (hay@.subrange(from as int, i as int) + with@ + rest));
                from = i + pat.len();
            },
            None => {
                push_all(&mut out, part(hay, from, n));
                return out;
            },
        }
    }
}

pub fn str_replaced(s: &str, pat: &str, with: &str) -> (r: String)
    requires
        pat@.len() > 0,
    ensures
        r@ == replace_all(s@, pat@, with@),
{
    let h = to_chars(s);
    let p = to_chars(pat);
    let w = to_chars(with);
    to_text(replaced(h.as_slice(), p.as_slice(), w.as_slice()).as_slice())
}

/// The pieces of `hay` from `from` on, between the occurrences of `pat`.
pub open spec fn split_from(hay: Seq<char>, pat: Seq<char>, from: int) -> Seq<Seq<char>>
    recommends
        pat.len() > 0,
        0 <= from <= hay.len(),
    decreases hay.len() - from,
{
    match find_from(hay, pat, from) {
        Some(i) if from <= i && pat.len() > 0 && i + pat.len() <= hay.len() => seq![
            hay.subrange(from, i),
        ] + split_from(hay, pat, i + pat.len()),
        _ => seq![hay.subrange(from, hay.len() as int)],
    }
}

pub open spec fn split(hay: Seq<char>, pat: Seq<char>) -> Seq<Seq<char>> {
    split_from(hay, pat, 0)
}

/// The views of the texts of a list.
pub open spec fn views(v: Seq<String>) -> Seq<Seq<char>> {
    Seq::new(v.len(), |i: int| v[i]@)
}

/// The contents of a list of character lists.
pub open spec fn char_views(v: Seq<Vec<char>>) -> Seq<Seq<char>> {
    Seq::new(v.len(), |i: int| v[i]@)
}

pub fn copied(s: &[char]) -> (r: Vec<char>)
    ensures
        r@ == s@,
{
    let mut out: Vec<char> = Vec::new();
    push_all(&mut out, s);
    assert(out@ =~= s@);
    out
}

pub fn splitted(hay: &[char], pat: &[char]) -> (r: Vec<Vec<char>>)
    requires
        pat@.len() > 0,
    ensures
        char_views(r@) == split(hay@, pat@),
        r@.len() >= 1,
{
    let mut out: Vec<Vec<char>> = Vec::new();
    let n: usize = hay.len();
    let mut from: usize = 0;
    loop
        invariant
            pat@.len() > 0,
            from <= hay@.len(),
            n == hay@.len(),
            split(hay@, pat@) == char_views(out@) + split_from(hay@, pat@, from as int),
        decreases hay@.len() - from,
    {
        match index_from(hay, pat, from) {
            Some(i) => {
                let ghost before = char_views(out@);
                out.push(copied(part(hay, from, i)));
                let ghost rest = split_from(hay@, pat@, i + pat@.len());
                assert(char_views(out@) =~= before.push(hay@.subrange(from as int, i as int)));
                assert(char_views(out@) + rest =~= before + (seq![
                    hay@.subrange(from as int, i as int),
                ] + rest));
                from = i + pat.len();
            },
            None => {
                let ghost before = char_views(out@);
                out.push(copied(part(hay, from, n)));
                assert(char_views(out@) =~= before + seq![
                    hay@.subrange(from as int, hay@.len() as int),
                ]);
                return out;
            },
        }
    }
}

/// The parts one after the other, with `sep` between each two.
pub open spec fn join(parts: Seq<Seq<char>>, sep: Seq<char>) -> Seq<char>
    decreases parts.len(),
{
    if parts.len() == 0 {
        Seq::empty()
    } else if parts.len() == 1 {
        parts[0]
    } else {
        join(parts.drop_last(), sep) + sep + parts.last()
    }
}

pub fn joined(parts: &Vec<String>, sep: &str) -> (r: String)
    ensures
        r@ == join(views(parts@), sep@),
{
    let mut out = String::new();
    let mut i: usize = 0;
    while i < parts.len()
        invariant
            i <= parts.len(),
            out@ == join(views(parts@).take(i as int), sep@),
        decreases parts.len() - i,
    {
        let ghost v = views(parts@);
        assert(v.take(i + 1).drop_last() =~= v.take(i as int));
        assert(v.take(i + 1).last() == parts@[i as int]@);
        if i > 0 {
            out.append(sep);
        }
        out.append(parts[i].as_str());
        i = i + 1;
        proof {
            if i == 1 {
                assert(out@ =~= v.take(1)[0]);
            }
        }
    }
    assert(views(parts@).take(i as int) =~= views(parts@));
    out
}

// ---------------------------------------------------------------------------
// Words
// ---------------------------------------------------------------------------

/// The position of the first white space from `from` on, or the end.
pub open spec fn word_end(s: Seq<char>, from: int) -> int
    decreases s.len() - from,
{
    if 0 <= from < s.len() && !is_space(s[from]) {
        word_end(s, from + 1)
    } else {
        from
    }
}

/// The maximal runs of characters other than white space, from `from` on.
pub open spec fn words_from(s: Seq<char>, from: int) -> Seq<Seq<char>>
    decreases s.len() - from,
{
    if from < 0 || from >= s.len() {
        Seq::empty()
    } else if is_space(s[from]) {
        words_from(s, from + 1)
    } else {
        let e = word_end(s, from);
        if from < e <= s.len() {
            seq![s.subrange(from, e)] + words_from(s, e)
        } else {
            Seq::empty()
        }
    }
}

/// The words of a text: what stands between its white space.
pub open spec fn words(s: Seq<char>) -> Seq<Seq<char>> {
    words_from(s, 0)
}

pub fn split_words(s: &[char]) -> (r: Vec<Vec<char>>)
    ensures
        char_views(r@) == words(s@),
{
    let mut out: Vec<Vec<char>> = Vec::new();
    let mut i: usize = 0;
    assert(char_views(out@) + words_from(s@, 0) =~= words(s@));
    while i < s.len()
        invariant
            i <= s.len(),
            words(s@) == char_views(out@) + words_from(s@, i as int),
        decreases s.len() - i,
    {
        if char_is_space(s[i]) {
            i = i + 1;
        } else {
            let start: usize = i;
            while i < s.len() && !char_is_space(s[i])
                invariant
                    start <= i <= s.len(),
                    word_end(s@, start as int) == word_end(s@, i as int),
                    i == start ==> i < s.len() && !is_space(s@[i as int]),
                decreases s.len() - i,
            {
                i = i + 1;
            }
            let ghost before = char_views(out@);
            out.push(copied(part(s, start, i)));
            let ghost rest = words_from(s@, i as int);
            assert(char_views(out@) =~= before.push(s@.subrange(start as int, i as int)));
            assert(char_views(out@) + rest =~= before + (seq![s@.subrange(start as int, i as int)]
                + rest));
        }
    }
    assert(words_from(s@, i as int) =~= Seq::<Seq<char>>::empty());
    assert(char_views(out@) =~= words(s@));
    out
}

pub fn texts_of(v: &Vec<Vec<char>>) -> (r: Vec<String>)
    ensures
        views(r@) == char_views(v@),
{
    let mut out: Vec<String> = Vec::new();
    let mut i: usize = 0;
    while i < v.len()
        invariant
            i <= v.len(),
            views(out@) == char_views(v@).take(i as int),
        decreases v.len() - i,
    {
        let ghost before = views(out@);
        out.push(to_text(v[i].as_slice()));
        i = i + 1;
        assert(views(out@) =~= before.push(v@[i - 1]@));
        assert(views(out@) =~= char_views(v@).take(i as int));
    }
    assert(views(out@) =~= char_views(v@));
    out
}

// ---------------------------------------------------------------------------
// Lengths and numbers
// ---------------------------------------------------------------------------

/// The first `n` characters, or all of them.
pub open spec fn first_chars(s: Seq<char>, n: nat) -> Seq<char> {
    if s.len() <= n {
        s
    } else {
        s.take(n as int)
    }
}

pub fn str_first_chars(s: &str, n: usize) -> (r: String)
    ensures
        r@ == first_chars(s@, n as nat),
{
    let c = to_chars(s);
    if c.len() <= n {
        to_text(c.as_slice())
    } else {
        assert(c@.subrange(0, n as int) =~= c@.take(n as int));
        to_text(part(c.as_slice(), 0, n))
    }
}

pub open spec fn digit_char(d: nat) -> char {
    if d == 0 {
        '0'
    } else if d == 1 {
        '1'
    } else if d == 2 {
        '2'
    } else if d == 3 {
        '3'
    } else if d == 4 {
        '4'
    } else if d == 5 {
        '5'
    } else if d == 6 {
        '6'
    } else if d == 7 {
        '7'
    } else if d == 8 {
        '8'
    } else {
        '9'
    }
}

/// A number in decimal digits, without leading zeros.
pub open spec fn decimal(n: nat) -> Seq<char>
    decreases n,
{
    if n < 10 {
        seq![digit_char(n)]
    } else {
        decimal(n / 10).push(digit_char(n % 10))
    }
}

/// A signed number in decimal digits, with `-` before a negative one.
pub open spec fn signed_decimal(n: int) -> Seq<char> {
    if n < 0 {
        seq!['-'] + decimal((-n) as nat)
    } else {
        decimal(n as nat)
    }
}

pub fn digit_of(d: u64) -> (r: char)
    requires
        d < 10,
    ensures
        r == digit_char(d as nat),
{
    if d == 0 {
        '0'
    } else if d == 1 {
        '1'
    } else if d == 2 {
        '2'
    } else if d == 3 {
        '3'
    } else if d == 4 {
        '4'
    } else if d == 5 {
        '5'
    } else if d == 6 {
        '6'
    } else if d == 7 {
        '7'
    } else if d == 8 {
        '8'
    } else {
        '9'
    }
}

pub fn decimal_text(n: u64) -> (r: String)
    ensures
        r@ == decimal(n as nat),
    decreases n,
{
    if n < 10 {
        let mut s = String::new();
        s.push(digit_of(n));
        assert(s@ =~= decimal(n as nat));
        s
    } else {
        let mut s = decimal_text(n / 10);
        s.push(digit_of(n % 10));
        s
    }
}

pub fn signed_text(n: i64) -> (r: String)
    ensures
        r@ == signed_decimal(n as int),
{
    if n < 0 {
        let m: u64 = if n == i64::MIN {
            9223372036854775808
        } else {
            (-n) as u64
        };
        let mut s = String::new();
        s.push('-');
        s.append(decimal_text(m).as_str());
        assert(s@ =~= seq!['-'] + decimal(m as nat));
        s
    } else {
        decimal_text(n as u64)
    }
}

/// A text of digits and nothing else, one at least.
pub open spec fn all_digits(s: Seq<char>) -> bool {
    s.len() > 0 && forall|i: int| 0 <= i < s.len() ==> is_digit(#[trigger] s[i])
}

/// The number that a text of digits writes.
pub open spec fn digits_value(s: Seq<char>) -> nat
    decreases s.len(),
{
    if s.len() == 0 {
        0
    } else {
        digits_value(s.drop_last()) * 10 + (s.last() as nat - '0' as nat) as nat
    }
}

pub proof fn lemma_digits_grow(s: Seq<char>, n: int)
    requires
        0 <= n <= s.len(),
    ensures
        digits_value(s.take(n)) <= digits_value(s),
    decreases s.len() - n,
{
    if n < s.len() {
        lemma_digits_grow(s, n + 1);
        assert(s.take(n + 1).drop_last() =~= s.take(n));
    } else {
        assert(s.take(n) =~= s);
    }
}

pub fn digit_value(c: char) -> (r: u64)
    requires
        is_digit(c),
    ensures
        r == c as nat - '0' as nat,
        r < 10,
{
    (c as u32 - '0' as u32) as u64
}

/// The number that a text of digits writes, where it fits.
pub fn read_digits(s: &[char]) -> (r: Option<u64>)
    ensures
        match r {
            Some(n) => all_digits(s@) && n == digits_value(s@),
            None => !all_digits(s@) || digits_value(s@) > u64::MAX,
        },
{
    if s.len() == 0 {
        return None;
    }
    let mut n: u64 = 0;
    let mut i: usize = 0;
    assert(s@.take(0) =~= Seq::<char>::empty());
    while i < s.len()
        invariant
            i <= s.len(),
            n == digits_value(s@.take(i as int)),
            forall|k: int| 0 <= k < i ==> is_digit(#[trigger] s@[k]),
        decreases s.len() - i,
    {
        assert(s@.take(i + 1).drop_last() =~= s@.take(i as int));
        assert(s@.take(i + 1).last() == s@[i as int]);
        if !char_is_digit(s[i]) {
            assert(!is_digit(s@[i as int]));
            return None;
        }
        let d = digit_value(s[i]);
        proof {
            lemma_digits_grow(s@, i + 1);
        }
        if n > u64::MAX / 10 {
            return None;
        }
        if n * 10 > u64::MAX - d {
            return None;
        }
        n = n * 10 + d;
        i = i + 1;
    }
    assert(s@.take(i as int) =~= s@);
    Some(n)
}

// ---------------------------------------------------------------------------
// Putting texts together
// ---------------------------------------------------------------------------

/// The view of an optional text.
pub open spec fn opt(o: Option<String>) -> Option<Seq<char>> {
    match o {
        Some(s) => Some(s@),
        None => None,
    }
}

pub fn cat2(a: &str, b: &str) -> (r: String)
    ensures
        r@ == a@ + b@,
{
    let mut s = a.to_owned();
    s.append(b);
    s
}

pub fn cat3(a: &str, b: &str, c: &str) -> (r: String)
    ensures
        r@ == a@ + b@ + c@,
{
    let mut s = cat2(a, b);
    s.append(c);
    s
}

pub fn cat4(a: &str, b: &str, c: &str, d: &str) -> (r: String)
    ensures
        r@ == a@ + b@ + c@ + d@,
{
    let mut s = cat3(a, b, c);
    s.append(d);
    s
}

pub fn cat5(a: &str, b: &str, c: &str, d: &str, e: &str) -> (r: String)
    ensures
        r@ == a@ + b@ + c@ + d@ + e@,
{
    let mut s = cat4(a, b, c, d);
    s.append(e);
    s
}

pub fn copy_opt(o: &Option<String>) -> (r: Option<String>)
    ensures
        opt(r) == opt(*o),
{
    match o {
        Some(s) => Some(s.clone()),
        None => None,
    }
}

pub fn opt_eq(a: &Option<String>, b: &Option<String>) -> (r: bool)
    ensures
        r == (opt(*a) == opt(*b)),
{
    match (a, b) {
        (Some(x), Some(y)) => str_eq(x.as_str(), y.as_str()),
        (None, None) => true,
        _ => false,
    }
}

/// `s` is one of the texts of a list.
pub open spec fn one_of(s: Seq<char>, list: Seq<String>) -> bool {
    exists|i: int| 0 <= i < list.len() && (#[trigger] list[i])@ == s
}

pub fn is_one_of(s: &str, list: &Vec<String>) -> (r: bool)
    ensures
        r == one_of(s@, list@),
{
    let mut i: usize = 0;
    while i < list.len()
        invariant
            i <= list.len(),
            forall|k: int| 0 <= k < i ==> (#[trigger] list@[k])@ != s@,
        decreases list.len() - i,
    {
        if str_eq(list[i].as_str(), s) {
            return true;
        }
        i = i + 1;
    }
    false
}

pub fn copy_texts(v: &Vec<String>) -> (r: Vec<String>)
    ensures
        views(r@) == views(v@),
{
    let mut out: Vec<String> = Vec::new();
    let mut i: usize = 0;
    while i < v.len()
        invariant
            i <= v.len(),
            views(out@) == views(v@).take(i as int),
        decreases v.len() - i,
    {
        let ghost before = views(out@);
        out.push(v[i].clone());
        i = i + 1;
        assert(views(out@) =~= before.push(v@[i - 1]@));
        assert(views(out@) =~= views(v@).take(i as int));
    }
    assert(views(out@) =~= views(v@));
    out
}

/// The two texts are the same but for the case of the letters A to Z.
pub open spec fn same_ignoring_ascii_case(a: Seq<char>, b: Seq<char>) -> bool {
    ascii_lower_all(a) == ascii_lower_all(b)
}

pub fn eq_ignore_ascii_case(a: &str, b: &str) -> (r: bool)
    ensures
        r == same_ignoring_ascii_case(a@, b@),
{
    let x = to_chars(a);
    let y = to_chars(b);
    if x.len() != y.len() {
        assert(ascii_lower_all(a@).len() != ascii_lower_all(b@).len());
        return false;
    }
    let mut i: usize = 0;
    while i < x.len()
        invariant
            i <= x.len(),
            x@ == a@,
            y@ == b@,
            x.len() == y.len(),
            forall|k: int| 0 <= k < i ==> ascii_lower(x@[k]) == ascii_lower(y@[k]),
        decreases x.len() - i,
    {
        if char_ascii_lower(x[i]) != char_ascii_lower(y[i]) {
            assert(ascii_lower_all(a@)[i as int] != ascii_lower_all(b@)[i as int]);
            return false;
        }
        i = i + 1;
    }
    assert(ascii_lower_all(a@) =~= ascii_lower_all(b@));
    true
}

// ---------------------------------------------------------------------------
// What splitting keeps
// ---------------------------------------------------------------------------

pub proof fn lemma_split_is_some(hay: Seq<char>, pat: Seq<char>, from: int)
    ensures
        split_from(hay, pat, from).len() > 0,
{
}

pub proof fn lemma_join_first(first: Seq<char>, rest: Seq<Seq<char>>, sep: Seq<char>)
    requires
        rest.len() > 0,
    ensures
        join(seq![first] + rest, sep) == first + sep + join(rest, sep),
    decreases rest.len(),
{
    let all = seq![first] + rest;
    assert(all.last() == rest.last());
    if rest.len() == 1 {
        assert(all.drop_last() =~= seq![first]);
        assert(join(seq![first], sep) == first);
    } else {
        lemma_join_first(first, rest.drop_last(), sep);
        assert(all.drop_last() =~= seq![first] + rest.drop_last());
        assert(first + sep + join(rest.drop_last(), sep) + sep + rest.last() =~= first + sep + (join(
            rest.drop_last(),
            sep,
        ) + sep + rest.last()));
    }
}

/// The pieces of a text, joined again, are the text.
pub proof fn lemma_split_joins(hay: Seq<char>, pat: Seq<char>, from: int)
    requires
        pat.len() > 0,
        0 <= from <= hay.len(),
    ensures
        join(split_from(hay, pat, from), pat) == hay.skip(from),
    decreases hay.len() - from,
{
    lemma_find_from(hay, pat, from);
    match find_from(hay, pat, from) {
        Some(i) if from <= i && pat.len() > 0 && i + pat.len() <= hay.len() => {
            let next = (i + pat.len()) as int;
            lemma_split_joins(hay, pat, next);
            lemma_split_is_some(hay, pat, next);
            lemma_join_first(hay.subrange(from, i), split_from(hay, pat, next), pat);
            assert(hay.subrange(i, next) == pat);
            assert(hay.skip(from) =~= hay.subrange(from, i) + hay.subrange(i, next) + hay.skip(next));
        },
        _ => {
            assert(hay.subrange(from, hay.len() as int) =~= hay.skip(from));
        },
    }
}

/// No piece of a text that is split holds the separator.
pub proof fn law_no_piece_holds_the_separator(hay: Seq<char>, pat: Seq<char>, from: int, k: int)
    requires
        pat.len() > 0,
        0 <= from <= hay.len(),
        0 <= k < split_from(hay, pat, from).len(),
    ensures
        !contains(split_from(hay, pat, from)[k], pat),
    decreases hay.len() - from,
{
    lemma_find_from(hay, pat, from);
    match find_from(hay, pat, from) {
        Some(i) if from <= i && pat.len() > 0 && i + pat.len() <= hay.len() => {
            if k == 0 {
                lemma_nothing_between(hay, pat, from, i);
            } else {
                law_no_piece_holds_the_separator(hay, pat, i + pat.len(), k - 1);
            }
        },
        _ => {
            lemma_nothing_between(hay, pat, from, hay.len() as int);
        },
    }
}

proof fn lemma_nothing_between(hay: Seq<char>, pat: Seq<char>, from: int, to: int)
    requires
        pat.len() > 0,
        0 <= from <= to <= hay.len(),
        forall|k: int| from <= k < to ==> !matches_at(hay, pat, k),
    ensures
        !contains(hay.subrange(from, to), pat),
{
    let piece = hay.subrange(from, to);
    lemma_find_from(piece, pat, 0);
    if let Some(j) = find(piece, pat) {
        assert(hay.subrange(from + j, from + j + pat.len()) =~= piece.subrange(j, j + pat.len()));
        assert(matches_at(hay, pat, from + j));
        assert(false);
    }
}

/// To replace is to split and to join with what comes instead.
pub proof fn law_replacing_joins_the_pieces(
    hay: Seq<char>,
    pat: Seq<char>,
    with: Seq<char>,
    from: int,
)
    requires
        pat.len() > 0,
        0 <= from <= hay.len(),
    ensures
        replace_from(hay, pat, with, from) == join(split_from(hay, pat, from), with),
    decreases hay.len() - from,
{
    lemma_find_from(hay, pat, from);
    match find_from(hay, pat, from) {
        Some(i) if from <= i && pat.len() > 0 && i + pat.len() <= hay.len() => {
            let next = (i + pat.len()) as int;
            law_replacing_joins_the_pieces(hay, pat, with, next);
            lemma_split_is_some(hay, pat, next);
            lemma_join_first(hay.subrange(from, i), split_from(hay, pat, next), with);
        },
        _ => {},
    }
}

/// What is trimmed off is white space, and none is left at either end.
pub proof fn law_trimming_takes_the_white_space(s: Seq<char>) -> (at: int)
    ensures
        0 <= at,
        at + trim(s).len() <= s.len(),
        trim(s) == s.subrange(at, at + trim(s).len()),
        forall|i: int| 0 <= i < at ==> is_space(#[trigger] s[i]),
        forall|i: int| at + trim(s).len() <= i < s.len() ==> is_space(#[trigger] s[i]),
        trim(s).len() > 0 ==> !is_space(trim(s)[0]) && !is_space(trim(s).last()),
{
    let at = lemma_trim_start(s);
    let t = trim_start(s);
    lemma_trim_end(t);
    assert(trim(s) =~= s.subrange(at, at + trim(s).len()));
    assert forall|i: int| at + trim(s).len() <= i < s.len() implies is_space(#[trigger] s[i]) by {
        assert(s[i] == t[i - at]);
    }
    at
}

proof fn lemma_trim_start(s: Seq<char>) -> (at: int)
    ensures
        0 <= at <= s.len(),
        trim_start(s) == s.skip(at),
        forall|i: int| 0 <= i < at ==> is_space(#[trigger] s[i]),
        at < s.len() ==> !is_space(s[at]),
    decreases s.len(),
{
    if s.len() > 0 && is_space(s[0]) {
        let k = lemma_trim_start(s.skip(1));
        assert(s.skip(1).skip(k) =~= s.skip(k + 1));
        assert forall|i: int| 0 <= i < k + 1 implies is_space(#[trigger] s[i]) by {
            if i > 0 {
                assert(s.skip(1)[i - 1] == s[i]);
            }
        }
        k + 1
    } else {
        assert(s.skip(0) =~= s);
        0
    }
}

proof fn lemma_trim_end(s: Seq<char>)
    ensures
        trim_end(s).len() <= s.len(),
        trim_end(s) == s.take(trim_end(s).len() as int),
        forall|i: int| trim_end(s).len() <= i < s.len() ==> is_space(#[trigger] s[i]),
        trim_end(s).len() > 0 ==> !is_space(trim_end(s).last()),
    decreases s.len(),
{
    if s.len() > 0 && is_space(s.last()) {
        let less = s.drop_last();
        lemma_trim_end(less);
        assert(trim_end(s) =~= s.take(trim_end(s).len() as int));
        assert forall|i: int| trim_end(s).len() <= i < s.len() implies is_space(#[trigger] s[i]) by {
            if i < less.len() {
                assert(less[i] == s[i]);
            }
        }
    } else {
        assert(s.take(s.len() as int) =~= s);
    }
}

/// What is cut off at the end is made of the two characters, and neither is left there.
pub proof fn law_cutting_the_end_takes_these_alone(s: Seq<char>, a: char, b: char)
    ensures
        ({
            let t = trim_end_of(s, a, b);
            &&& t.len() <= s.len()
            &&& t == s.take(t.len() as int)
            &&& forall|i: int| t.len() <= i < s.len() ==> (#[trigger] s[i] == a || s[i] == b)
            &&& t.len() > 0 ==> t.last() != a && t.last() != b
        }),
    decreases s.len(),
{
    if s.len() > 0 && (s.last() == a || s.last() == b) {
        let less = s.drop_last();
        law_cutting_the_end_takes_these_alone(less, a, b);
        let t = trim_end_of(s, a, b);
        assert(t =~= s.take(t.len() as int));
        assert forall|i: int| t.len() <= i < s.len() implies (#[trigger] s[i] == a || s[i] == b) by {
            if i < less.len() {
                assert(less[i] == s[i]);
            }
        }
    } else {
        assert(s.take(s.len() as int) =~= s);
    }
}

/// A number that is written down reads as itself.
pub proof fn law_a_written_number_reads_back(n: nat)
    ensures
        all_digits(decimal(n)),
        digits_value(decimal(n)) == n,
    decreases n,
{
    reveal_with_fuel(digits_value, 2);
    if n >= 10 {
        law_a_written_number_reads_back(n / 10);
        let d = decimal(n / 10);
        assert(decimal(n).drop_last() =~= d);
        assert forall|i: int| 0 <= i < decimal(n).len() implies is_digit(#[trigger] decimal(n)[i]) by {
            if i < d.len() {
                assert(is_digit(d[i]));
            }
        }
    } else {
        assert(decimal(n).drop_last() =~= Seq::<char>::empty());
    }
}

/// A text is as long in bytes as its two parts.
pub proof fn law_lengths_add_up(a: Seq<char>, b: Seq<char>)
    ensures
        byte_len(a + b) == byte_len(a) + byte_len(b),
    decreases b.len(),
{
    if b.len() == 0 {
        assert(a + b =~= a);
    } else {
        assert((a + b).drop_last() =~= a + b.drop_last());
        law_lengths_add_up(a, b.drop_last());
    }
}

/// Case is all that a change of case changes: what was a letter is the same letter, what was
/// none stays as it is.
pub proof fn law_case_is_all_that_changes(c: char)
    ensures
        is_ascii_letter(c) == is_ascii_letter(ascii_lower(c)),
        is_ascii_letter(c) == is_ascii_letter(ascii_upper(c)),
        is_ascii_letter(c) ==> 'a' <= ascii_lower(c) <= 'z' && 'A' <= ascii_upper(c) <= 'Z',
        !is_ascii_letter(c) ==> ascii_lower(c) == c && ascii_upper(c) == c,
        ascii_lower(ascii_upper(c)) == ascii_lower(c),
        ascii_upper(ascii_lower(c)) == ascii_upper(c),
{
}

/// A character is found where it stands first.
pub proof fn lemma_find_char(s: Seq<char>, c: char, from: int, n: int)
    requires
        0 <= from <= n <= s.len(),
        forall|i: int| from <= i < n ==> #[trigger] s[i] != c,
        n < s.len() ==> s[n] == c,
    ensures
        find_from(s, seq![c], from) == (if n < s.len() {
            Some(n)
        } else {
            None
        }),
    decreases n - from,
{
    let p = seq![c];
    if from < s.len() {
        let w = s.subrange(from, from + 1);
        assert(w[0] == s[from]);
        if from < n {
            assert(w != p) by {
                assert(p[0] == c);
            }
            lemma_find_char(s, c, from + 1, n);
        } else {
            assert(w =~= p);
        }
    }
}

/// A character that stands once in a text is replaced there, and the rest stays.
pub proof fn law_one_character_is_replaced(a: Seq<char>, c: char, b: Seq<char>, with: Seq<char>)
    requires
        forall|i: int| 0 <= i < a.len() ==> #[trigger] a[i] != c,
        forall|i: int| 0 <= i < b.len() ==> #[trigger] b[i] != c,
    ensures
        replace_all(a + seq![c] + b, seq![c], with) == a + with + b,
{
    let s = a + seq![c] + b;
    let n = a.len() as int;
    assert forall|i: int| 0 <= i < n implies #[trigger] s[i] != c by {
        assert(s[i] == a[i]);
    }
    lemma_find_char(s, c, 0, n);
    assert forall|i: int| n + 1 <= i < s.len() implies #[trigger] s[i] != c by {
        assert(s[i] == b[i - n - 1]);
    }
    lemma_find_char(s, c, n + 1, s.len() as int);
    assert(s.subrange(n + 1, s.len() as int) =~= b);
    assert(replace_from(s, seq![c], with, n + 1) == b);
    assert(s.subrange(0, n) =~= a);
}

} // verus!
