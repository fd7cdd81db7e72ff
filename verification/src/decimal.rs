//! Decimal numbers in texts, read exactly.

use vstd::prelude::*;

use crate::text::{
    all_digits, char_is_digit, digits_value, eq_ignore_ascii_case, is_digit, part, push_all,
    read_digits, same_ignoring_ascii_case, to_text,
};

verus! {

/// An exponent counts no more than this: no text is as long.
pub const EXPONENT_CAP: u64 = 1000000000000000000;

/// Where the digits that start at `i` end.
pub open spec fn digit_end(s: Seq<char>, i: int) -> int
    decreases s.len() - i,
{
    if i < 0 || i >= s.len() || !is_digit(s[i]) {
        i
    } else {
        digit_end(s, i + 1)
    }
}

/// A number by its digits: `digits` times ten to the power `exp`.
pub struct DecimalView {
    pub negative: bool,
    /// Not a number, or without a bound.
    pub special: Option<bool>,
    pub digits: Seq<char>,
    pub exp: int,
}

pub open spec fn has_sign(s: Seq<char>) -> bool {
    s.len() > 0 && (s[0] == '+' || s[0] == '-')
}

pub open spec fn unsigned(s: Seq<char>) -> Seq<char> {
    if has_sign(s) {
        s.skip(1)
    } else {
        s
    }
}

pub open spec fn capped(n: nat) -> int {
    if n <= EXPONENT_CAP {
        n as int
    } else {
        EXPONENT_CAP as int
    }
}

/// The exponent that a text writes behind the digits; `None` where it is none.
pub open spec fn exponent_of(s: Seq<char>) -> Option<int> {
    if s.len() == 0 {
        Some(0)
    } else if (s[0] == 'e' || s[0] == 'E') && all_digits(unsigned(s.skip(1))) {
        let n = capped(digits_value(unsigned(s.skip(1))));
        Some(
            if s[1] == '-' {
                -n
            } else {
                n
            },
        )
    } else {
        None
    }
}

/// The digits of a number without its sign, the point taken out, and how many stood behind
/// it; `None` where there is no digit.
pub open spec fn number_of(b: Seq<char>, negative: bool) -> Option<DecimalView> {
    let a = digit_end(b, 0);
    let f = if a < b.len() && b[a] == '.' {
        digit_end(b, a + 1)
    } else {
        a
    };
    let digits = if f > a {
        b.take(a) + b.subrange(a + 1, f)
    } else {
        b.take(a)
    };
    if digits.len() == 0 {
        None
    } else {
        match exponent_of(b.skip(f)) {
            Some(e) => Some(
                DecimalView { negative, special: None, digits, exp: e - (digits.len() - a) },
            ),
            None => None,
        }
    }
}

/// The number that a text writes.
pub open spec fn decimal_of(s: Seq<char>) -> Option<DecimalView> {
    let b = unsigned(s);
    let negative = s.len() > 0 && s[0] == '-';
    if same_ignoring_ascii_case(b, "inf"@) || same_ignoring_ascii_case(b, "infinity"@) {
        Some(DecimalView { negative, special: Some(true), digits: Seq::empty(), exp: 0 })
    } else if same_ignoring_ascii_case(b, "nan"@) {
        Some(DecimalView { negative, special: Some(false), digits: Seq::empty(), exp: 0 })
    } else {
        number_of(b, negative)
    }
}

pub open spec fn pow10(n: nat) -> nat
    decreases n,
{
    if n == 0 {
        1
    } else {
        10 * pow10((n - 1) as nat)
    }
}

/// Digits that are moved by some places: what falls off at the end is lost.
pub open spec fn shifted(digits: Seq<char>, places: int) -> nat {
    if places >= 0 {
        digits_value(digits) * pow10(places as nat)
    } else if -places >= digits.len() {
        0
    } else {
        digits_value(digits.take(digits.len() + places))
    }
}

pub open spec fn at_most_max(n: nat) -> u64 {
    if n <= u64::MAX {
        n as u64
    } else {
        u64::MAX
    }
}

/// A number times ten to the power `power`, without its fraction, as far as an unsigned
/// number goes: nothing is less than zero, and what is no number counts as zero.
pub open spec fn whole_times(d: DecimalView, power: int) -> u64 {
    match d.special {
        Some(unbounded) => if unbounded && !d.negative {
            u64::MAX
        } else {
            0
        },
        None => if d.negative {
            0
        } else {
            at_most_max(shifted(d.digits, d.exp + power))
        },
    }
}

pub struct Decimal {
    pub negative: bool,
    pub special: Option<bool>,
    pub digits: Vec<char>,
    pub exp: i128,
}

impl Decimal {
    pub open spec fn view(self) -> DecimalView {
        DecimalView {
            negative: self.negative,
            special: self.special,
            digits: self.digits@,
            exp: self.exp as int,
        }
    }

    pub open spec fn wf(self) -> bool {
        &&& -0x1_0000_0000_0000_0000_0000 <= self.exp <= 0x1_0000_0000_0000_0000_0000
        &&& forall|i: int| 0 <= i < self.digits@.len() ==> is_digit(#[trigger] self.digits@[i])
    }
}

fn end_of_digits(s: &[char], from: usize) -> (r: usize)
    requires
        from <= s@.len(),
    ensures
        r == digit_end(s@, from as int),
        from <= r <= s@.len(),
        forall|i: int| from <= i < r ==> is_digit(#[trigger] s@[i]),
{
    let mut i: usize = from;
    while i < s.len() && char_is_digit(s[i])
        invariant
            from <= i <= s.len(),
            digit_end(s@, from as int) == digit_end(s@, i as int),
            forall|k: int| from <= k < i ==> is_digit(#[trigger] s@[k]),
        decreases s.len() - i,
    {
        i = i + 1;
    }
    i
}

fn read_exponent(s: &[char]) -> (r: Option<i128>)
    ensures
        match r {
            Some(e) => exponent_of(s@) == Some(e as int) && -EXPONENT_CAP <= e <= EXPONENT_CAP,
            None => exponent_of(s@) is None,
        },
{
    let n: usize = s.len();
    if n == 0 {
        return Some(0);
    }
    if s[0] != 'e' && s[0] != 'E' {
        return None;
    }
    let signed = n > 1 && (s[1] == '+' || s[1] == '-');
    let start: usize = if signed {
        2
    } else {
        1
    };
    let digits = part(s, start, n);
    assert(s@.skip(1).len() == n - 1);
    assert(digits@ =~= unsigned(s@.skip(1)));
    let mut i: usize = 0;
    if digits.len() == 0 {
        return None;
    }
    while i < digits.len()
        invariant
            i <= digits.len(),
            forall|k: int| 0 <= k < i ==> is_digit(#[trigger] digits@[k]),
            digits@ == unsigned(s@.skip(1)),
            s@.len() > 0,
        decreases digits.len() - i,
    {
        if !char_is_digit(digits[i]) {
            assert(!is_digit(digits@[i as int]));
            return None;
        }
        i = i + 1;
    }
    let v: u64 = match read_digits(digits) {
        Some(v) => if v <= EXPONENT_CAP {
            v
        } else {
            EXPONENT_CAP
        },
        None => EXPONENT_CAP,
    };
    if n > 1 && s[1] == '-' {
        Some(-(v as i128))
    } else {
        Some(v as i128)
    }
}

fn read_number(b: &[char], negative: bool) -> (r: Option<Decimal>)
    ensures
        match r {
            Some(d) => number_of(b@, negative) == Some(d.view()) && d.wf(),
            None => number_of(b@, negative) is None,
        },
{
    let n: usize = b.len();
    let a = end_of_digits(b, 0);
    let f = if a < n && b[a] == '.' {
        end_of_digits(b, a + 1)
    } else {
        a
    };
    let mut digits: Vec<char> = Vec::new();
    push_all(&mut digits, part(b, 0, a));
    assert(digits@ =~= b@.take(a as int));
    if f > a {
        push_all(&mut digits, part(b, a + 1, f));
        assert(digits@ =~= b@.take(a as int) + b@.subrange(a + 1, f as int));
    }
    let count: usize = digits.len();
    if count == 0 {
        return None;
    }
    assert forall|i: int| 0 <= i < digits@.len() implies is_digit(#[trigger] digits@[i]) by {
        if i < a {
            assert(digits@[i] == b@[i]);
        } else {
            assert(digits@[i] == b@[i + 1]);
        }
    }
    let tail = part(b, f, n);
    assert(tail@ =~= b@.skip(f as int));
    match read_exponent(tail) {
        Some(e) => {
            let frac: i128 = (count - a) as i128;
            Some(Decimal { negative, special: None, digits, exp: e - frac })
        },
        None => None,
    }
}

/// Reads a number.
pub fn read_decimal(s: &[char]) -> (r: Option<Decimal>)
    ensures
        match r {
            Some(d) => decimal_of(s@) == Some(d.view()) && d.wf(),
            None => decimal_of(s@) is None,
        },
{
    let n: usize = s.len();
    let negative = n > 0 && s[0] == '-';
    let b = if n > 0 && (s[0] == '+' || s[0] == '-') {
        part(s, 1, n)
    } else {
        part(s, 0, n)
    };
    assert(b@ =~= unsigned(s@));
    let text = to_text(b);
    let none: Vec<char> = Vec::new();
    assert(none@ =~= Seq::<char>::empty());
    if eq_ignore_ascii_case(text.as_str(), "inf") || eq_ignore_ascii_case(
        text.as_str(),
        "infinity",
    ) {
        return Some(Decimal { negative, special: Some(true), digits: none, exp: 0 });
    }
    if eq_ignore_ascii_case(text.as_str(), "nan") {
        return Some(Decimal { negative, special: Some(false), digits: none, exp: 0 });
    }
    read_number(b, negative)
}

fn digits_capped(s: &[char]) -> (r: u64)
    requires
        forall|i: int| 0 <= i < s@.len() ==> is_digit(#[trigger] s@[i]),
    ensures
        r == at_most_max(digits_value(s@)),
{
    if s.len() == 0 {
        return 0;
    }
    match read_digits(s) {
        Some(v) => v,
        None => u64::MAX,
    }
}

proof fn lemma_pow10_grows(a: nat, b: nat)
    requires
        a <= b,
    ensures
        1 <= pow10(a) <= pow10(b),
    decreases b,
{
    if a == b {
        if a > 0 {
            lemma_pow10_grows((a - 1) as nat, (b - 1) as nat);
        }
    } else {
        lemma_pow10_grows(a, (b - 1) as nat);
    }
}

impl Decimal {
    /// The number times ten to the power `power`, without its fraction.
    pub fn times_power(&self, power: i128) -> (r: u64)
        requires
            self.wf(),
            -1000 <= power <= 1000,
        ensures
            r == whole_times(self.view(), power as int),
    {
        if let Some(unbounded) = self.special {
            return if unbounded && !self.negative {
                u64::MAX
            } else {
                0
            };
        }
        if self.negative {
            return 0;
        }
        let places: i128 = self.exp + power;
        let n: usize = self.digits.len();
        if places < 0 {
            let drop: i128 = -places;
            if drop >= n as i128 {
                return 0;
            }
            let keep: usize = n - drop as usize;
            let kept = part(self.digits.as_slice(), 0, keep);
            assert(kept@ =~= self.digits@.take(keep as int));
            return digits_capped(kept);
        }
        let ghost value = digits_value(self.digits@);
        let exact = read_digits(self.digits.as_slice());
        let mut v: u64 = match exact {
            Some(v) => v,
            None => {
                if n == 0 {
                    assert(value * pow10(places as nat) == 0) by (nonlinear_arith)
                        requires
                            value == 0,
                    ;
                    return 0;
                }
                proof {
                    lemma_pow10_grows(0, places as nat);
                    assert(value * pow10(places as nat) >= value) by (nonlinear_arith)
                        requires
                            pow10(places as nat) >= 1,
                    ;
                }
                return u64::MAX;
            },
        };
        let mut k: i128 = 0;
        assert(value * pow10(0) == value) by (nonlinear_arith)
            requires
                pow10(0) == 1,
        ;
        while k < places
            invariant
                0 <= k <= places,
                places == self.exp + power,
                self.special is None,
                !self.negative,
                value == digits_value(self.digits@),
                v == value * pow10(k as nat),
            decreases places - k,
        {
            if v == 0 {
                proof {
                    lemma_pow10_grows(0, k as nat);
                    assert(value == 0) by (nonlinear_arith)
                        requires
                            value * pow10(k as nat) == 0,
                            pow10(k as nat) >= 1,
                    ;
                    assert(value * pow10(places as nat) == 0) by (nonlinear_arith)
                        requires
                            value == 0,
                    ;
                }
                return 0;
            }
            assert(value * pow10((k + 1) as nat) == 10 * (value * pow10(k as nat))) by (nonlinear_arith)
                requires
                    pow10((k + 1) as nat) == 10 * pow10(k as nat),
            ;
            if v > u64::MAX / 10 {
                proof {
                    lemma_pow10_grows((k + 1) as nat, places as nat);
                    assert(value * pow10(places as nat) >= value * pow10((k + 1) as nat))
                        by (nonlinear_arith)
                        requires
                            pow10(places as nat) >= pow10((k + 1) as nat),
                    ;
                }
                return u64::MAX;
            }
            v = v * 10;
            k = k + 1;
        }
        v
    }
}

// ---------------------------------------------------------------------------
// Whole numbers
// ---------------------------------------------------------------------------

/// The whole number that a text writes: digits alone, after a sign or without one.
pub open spec fn integer_of(s: Seq<char>) -> Option<int> {
    let b = unsigned(s);
    if all_digits(b) {
        Some(
            if s[0] == '-' {
                -digits_value(b)
            } else {
                digits_value(b) as int
            },
        )
    } else {
        None
    }
}

/// Reads a whole number between 0 and `max`; `None` for every other text.
pub fn read_up_to(s: &[char], max: u64) -> (r: Option<u64>)
    ensures
        match r {
            Some(v) => integer_of(s@) == Some(v as int) && v <= max,
            None => !(integer_of(s@) matches Some(k) && 0 <= k <= max),
        },
{
    let n: usize = s.len();
    let b = if n > 0 && (s[0] == '+' || s[0] == '-') {
        part(s, 1, n)
    } else {
        part(s, 0, n)
    };
    assert(b@ =~= unsigned(s@));
    match read_digits(b) {
        Some(v) => {
            if v > max || (n > 0 && s[0] == '-' && v != 0) {
                None
            } else {
                Some(v)
            }
        },
        None => None,
    }
}

/// The number that a text writes with digits alone, after a `+` or without one.
pub open spec fn natural_of(s: Seq<char>) -> Option<nat> {
    let b = if s.len() > 0 && s[0] == '+' {
        s.skip(1)
    } else {
        s
    };
    if all_digits(b) {
        Some(digits_value(b))
    } else {
        None
    }
}

/// Reads a number without a sign, up to `max`.
pub fn read_natural(s: &[char], max: u64) -> (r: Option<u64>)
    ensures
        match r {
            Some(v) => natural_of(s@) == Some(v as nat) && v <= max,
            None => !(natural_of(s@) matches Some(k) && k <= max),
        },
{
    let n: usize = s.len();
    let b = if n > 0 && s[0] == '+' {
        part(s, 1, n)
    } else {
        part(s, 0, n)
    };
    assert(b@ =~= if s@.len() > 0 && s@[0] == '+' {
        s@.skip(1)
    } else {
        s@
    });
    match read_digits(b) {
        Some(v) => if v > max {
            None
        } else {
            Some(v)
        },
        None => None,
    }
}

/// A signed number that is written down reads as itself.
pub proof fn law_a_signed_number_reads_back(n: int)
    ensures
        integer_of(crate::text::signed_decimal(n)) == Some(n),
        n >= 0 ==> natural_of(crate::text::signed_decimal(n)) == Some(n as nat),
{
    let s = crate::text::signed_decimal(n);
    if n < 0 {
        let d = crate::text::decimal((-n) as nat);
        crate::text::law_a_written_number_reads_back((-n) as nat);
        assert(s.skip(1) =~= d);
    } else {
        crate::text::law_a_written_number_reads_back(n as nat);
        assert(is_digit(s[0]));
    }
}

proof fn lemma_digit_end(s: Seq<char>, i: int, e: int)
    requires
        0 <= i <= e <= s.len(),
        forall|k: int| i <= k < e ==> is_digit(#[trigger] s[k]),
        e < s.len() ==> !is_digit(s[e]),
    ensures
        digit_end(s, i) == e,
    decreases e - i,
{
    if i < e {
        assert(is_digit(s[i]));
        lemma_digit_end(s, i + 1, e);
    }
}

proof fn lemma_not_a_word(s: Seq<char>)
    requires
        s.len() > 0,
        is_digit(s[0]),
    ensures
        !same_ignoring_ascii_case(s, "inf"@),
        !same_ignoring_ascii_case(s, "infinity"@),
        !same_ignoring_ascii_case(s, "nan"@),
{
    reveal_strlit("inf");
    reveal_strlit("infinity");
    reveal_strlit("nan");
    let low = crate::text::ascii_lower_all(s);
    assert(low[0] == s[0]);
    assert(crate::text::ascii_lower_all("inf"@)[0] == 'i');
    assert(crate::text::ascii_lower_all("infinity"@)[0] == 'i');
    assert(crate::text::ascii_lower_all("nan"@)[0] == 'n');
}

/// A number is read by its digits: those before the point and those behind it, the point as
/// many places before the end as digits stand behind it.
pub proof fn law_a_number_is_read_by_its_digits(a: Seq<char>, b: Seq<char>)
    requires
        all_digits(a),
        all_digits(b),
    ensures
        decimal_of(a) == Some(
            (DecimalView { negative: false, special: None, digits: a, exp: 0 }),
        ),
        decimal_of(a + seq!['.'] + b) == Some(
            (DecimalView { negative: false, special: None, digits: a + b, exp: -b.len() }),
        ),
        decimal_of(seq!['-'] + a + seq!['.'] + b) == Some(
            (DecimalView { negative: true, special: None, digits: a + b, exp: -b.len() }),
        ),
{
    assert(is_digit(a[0]));
    lemma_not_a_word(a);
    lemma_digit_end(a, 0, a.len() as int);
    assert(a.take(a.len() as int) =~= a);
    assert(a.skip(a.len() as int) =~= Seq::<char>::empty());
    let s = a + seq!['.'] + b;
    assert(s[0] == a[0]);
    lemma_not_a_word(s);
    assert forall|k: int| 0 <= k < a.len() implies is_digit(#[trigger] s[k]) by {
        assert(s[k] == a[k]);
    }
    lemma_digit_end(s, 0, a.len() as int);
    assert forall|k: int| a.len() + 1 <= k < s.len() implies is_digit(#[trigger] s[k]) by {
        assert(s[k] == b[k - a.len() - 1]);
    }
    lemma_digit_end(s, a.len() as int + 1, s.len() as int);
    assert(s.take(a.len() as int) =~= a);
    assert(s.subrange(a.len() as int + 1, s.len() as int) =~= b);
    assert(s.skip(s.len() as int) =~= Seq::<char>::empty());
    let m = seq!['-'] + a + seq!['.'] + b;
    assert(m.skip(1) =~= s);
}

/// To move the point to the left is to divide by the power of ten, to the right to multiply.
pub proof fn law_moving_the_point_divides(digits: Seq<char>, k: nat)
    requires
        forall|i: int| 0 <= i < digits.len() ==> is_digit(#[trigger] digits[i]),
    ensures
        shifted(digits, -(k as int)) == digits_value(digits) / pow10(k),
        shifted(digits, k as int) == digits_value(digits) * pow10(k),
    decreases k,
{
    let one = pow10(0);
    assert(one == 1);
    if k == 0 {
        let v = digits_value(digits);
        assert(v * one == v / one) by (nonlinear_arith)
            requires
                one == 1,
        ;
    } else if digits.len() == 0 {
        lemma_pow10_grows(0, k);
        assert(digits_value(digits) / pow10(k) == 0) by (nonlinear_arith)
            requires
                digits_value(digits) == 0,
                pow10(k) > 0,
        ;
    } else {
        let less = digits.drop_last();
        assert forall|i: int| 0 <= i < less.len() implies is_digit(#[trigger] less[i]) by {
            assert(less[i] == digits[i]);
        }
        assert(is_digit(digits[digits.len() - 1]));
        let p = (k - 1) as nat;
        law_moving_the_point_divides(less, p);
        let v = digits_value(digits);
        assert(v / 10 == digits_value(less));
        lemma_pow10_grows(0, p);
        vstd::arithmetic::div_mod::lemma_div_denominator(v as int, 10, pow10(p) as int);
        if k < digits.len() {
            if p == 0 {
                let w = digits_value(less);
                assert(w / one == w) by (nonlinear_arith)
                    requires
                        one == 1,
                ;
                assert(digits.take(digits.len() - 1) =~= less);
            } else {
                assert(digits.take(digits.len() - k) =~= less.take(less.len() - p));
            }
        } else {
            if p == 0 {
                assert(less =~= Seq::<char>::empty());
                assert(0nat / one == 0) by (nonlinear_arith)
                    requires
                        one == 1,
                ;
            }
        }
    }
}

} // verus!
