//! Numbers out of text: unsigned integers and decimal quantities.
use crate::number::{clamp, clamped, Real};
use crate::text::{all_digits, ascii_digit, ascii_lower, chars_of, value};
use vstd::prelude::*;

verus! {

/// The digits of an unsigned numeral: the text without a leading plus sign.
pub open spec fn unsigned_digits(s: Seq<char>) -> Seq<char> {
    if s.len() > 0 && s[0] == '+' {
        s.drop_first()
    } else {
        s
    }
}

/// The number of a text of decimal digits, where it is at most `max`.
pub open spec fn unsigned(s: Seq<char>, max: int) -> Option<int> {
    let digits = unsigned_digits(s);
    if digits.len() > 0 && all_digits(digits) && value(digits) <= max {
        Some(value(digits) as int)
    } else {
        None
    }
}

/// The number of a text of decimal digits, where it is at most `max`.
pub fn parse_unsigned(s: &Vec<char>, max: u64) -> (r: Option<u64>)
    ensures
        match unsigned(s@, max as int) {
            Some(n) => r == Some(n as u64),
            None => r is None,
        },
{
    let from: usize = if s.len() > 0 && s[0] == '+' {
        1
    } else {
        0
    };
    let ghost digits = unsigned_digits(s@);
    assert(digits =~= s@.skip(from as int));
    if s.len() == from {
        return None;
    }
    let mut n: u128 = 0;
    let mut i: usize = from;
    assert(digits.take(0) =~= Seq::empty());
    while i < s.len()
        invariant
            from <= i <= s@.len(),
            digits == s@.skip(from as int),
            digits == unsigned_digits(s@),
            all_digits(digits.take(i - from)),
            n == capped(value(digits.take(i - from)) as int),
        decreases s@.len() - i,
    {
        let c: char = s[i];
        let ghost now = digits.take(i - from + 1);
        assert(now.drop_last() =~= digits.take(i - from));
        assert(now.last() == c);
        if !('0' <= c && c <= '9') {
            assert(digits[i - from] == c);
            assert(!all_digits(digits));
            return None;
        }
        proof {
            lemma_digits_push(digits, i - from);
        }
        n = cap(n * 10 + (c as u32 - 48) as u128);
        i = i + 1;
    }
    assert(digits.take(i - from) =~= digits);
    if n <= max as u128 {
        Some(n as u64)
    } else {
        None
    }
}

proof fn lemma_digits_push(digits: Seq<char>, i: int)
    requires
        0 <= i < digits.len(),
        all_digits(digits.take(i)),
        ascii_digit(digits[i]),
    ensures
        all_digits(digits.take(i + 1)),
{
    assert forall|k: int| #![trigger digits.take(i + 1)[k]] 0 <= k < i + 1 implies ascii_digit(
        digits.take(i + 1)[k],
    ) by {
        if k < i {
            assert(digits.take(i + 1)[k] == digits.take(i)[k]);
        }
    }
}

/// A natural number up to a bound beyond every machine integer of 64 bits.
pub open spec fn capped(n: int) -> int {
    if n > 0x1_0000_0000_0000_0000 {
        0x1_0000_0000_0000_0000
    } else {
        n
    }
}

pub(crate) fn cap(n: u128) -> (r: u128)
    ensures
        r == capped(n as int),
{
    if n > 0x1_0000_0000_0000_0000 {
        0x1_0000_0000_0000_0000
    } else {
        n
    }
}

// ------------------------------------------------------------- decimal numbers

/// A power of ten.
pub open spec fn ten_to(n: nat) -> nat
    decreases n,
{
    if n == 0 {
        1
    } else {
        10 * ten_to((n - 1) as nat)
    }
}

/// Where the run of digits that begins at `from` ends.
pub open spec fn digits_end(s: Seq<char>, from: int) -> int
    decreases s.len() - from,
{
    if 0 <= from < s.len() && ascii_digit(s[from]) {
        digits_end(s, from + 1)
    } else {
        from
    }
}

/// The largest exponent told apart: every larger one counts as this.
pub const MAX_EXPONENT: i128 = 1_000_000_000_000_000_000_000_000_000_000;

/// The exponent that stands from `at` to the end of a numeral: none at the end
/// counts as zero.
pub open spec fn exponent(s: Seq<char>, at: int) -> Option<int> {
    if at >= s.len() {
        Some(0)
    } else if s[at] != 'e' && s[at] != 'E' {
        None
    } else {
        let signed = at + 1 < s.len() && (s[at + 1] == '-' || s[at + 1] == '+');
        let digits = s.skip(if signed {
            at + 2
        } else {
            at + 1
        });
        if digits.len() == 0 || !all_digits(digits) {
            None
        } else {
            let n = if value(digits) > MAX_EXPONENT {
                MAX_EXPONENT as int
            } else {
                value(digits) as int
            };
            Some(if signed && s[at + 1] == '-' {
                -n
            } else {
                n
            })
        }
    }
}

/// The number that digits make with the decimal point after the first `p` of
/// them, to the nearest integer.
pub open spec fn scaled(digits: Seq<char>, p: int) -> int {
    if p < 0 {
        0
    } else if p < digits.len() {
        value(digits.take(p)) + if digits[p] >= '5' {
            1int
        } else {
            0
        }
    } else {
        (value(digits) * ten_to((p - digits.len()) as nat)) as int
    }
}

/// What a decimal numeral writes.
#[derive(Debug)]
pub enum Numeral {
    /// Digits, with the decimal point after the first `point` of them: beyond
    /// their end where it exceeds their number, before them where it is
    /// negative.
    Decimal { negative: bool, digits: Vec<char>, point: i128 },
    NaN,
    Infinite { negative: bool },
}

/// What a decimal numeral writes, as a value.
pub enum NumeralView {
    Decimal { negative: bool, digits: Seq<char>, point: int },
    NaN,
    Infinite { negative: bool },
}

impl View for Numeral {
    type V = NumeralView;

    open spec fn view(&self) -> NumeralView {
        match self {
            Numeral::Decimal { negative, digits, point } => NumeralView::Decimal {
                negative: *negative,
                digits: digits@,
                point: *point as int,
            },
            Numeral::NaN => NumeralView::NaN,
            Numeral::Infinite { negative } => NumeralView::Infinite { negative: *negative },
        }
    }
}

/// What the text of a numeral writes, its sign apart.
pub open spec fn unsigned_numeral(s: Seq<char>, negative: bool) -> Option<NumeralView> {
    let lower = s.map_values(|c: char| ascii_lower(c));
    if lower == "inf"@ || lower == "infinity"@ {
        Some(NumeralView::Infinite { negative })
    } else if lower == "nan"@ {
        Some(NumeralView::NaN)
    } else {
        let whole = digits_end(s, 0);
        let (fraction, end) = if whole < s.len() && s[whole] == '.' {
            (s.subrange(whole + 1, digits_end(s, whole + 1)), digits_end(s, whole + 1))
        } else {
            (Seq::empty(), whole)
        };
        let digits = s.take(whole) + fraction;
        if digits.len() == 0 {
            None
        } else {
            match exponent(s, end) {
                None => None,
                Some(e) => Some(NumeralView::Decimal { negative, digits, point: whole + e }),
            }
        }
    }
}

/// What a text writes as a decimal numeral; none where it is no numeral.
pub open spec fn numeral(s: Seq<char>) -> Option<NumeralView> {
    if s.len() > 0 && (s[0] == '-' || s[0] == '+') {
        unsigned_numeral(s.drop_first(), s[0] == '-')
    } else {
        unsigned_numeral(s, false)
    }
}

/// A quantity with the other sign.
pub open spec fn negated(r: Real) -> Real {
    match r {
        Real::Nano(n) => Real::Nano(clamped(-n) as i64),
        Real::NaN => Real::NaN,
        Real::Infinity => Real::NegInfinity,
        Real::NegInfinity => Real::Infinity,
    }
}

impl NumeralView {
    /// The quantity, in billionths to the nearest.
    pub open spec fn quantity(self) -> Real {
        match self {
            NumeralView::Decimal { negative, digits, point } => {
                let size = Real::Nano(clamped(scaled(digits, point + 9)) as i64);
                if negative {
                    negated(size)
                } else {
                    size
                }
            },
            NumeralView::NaN => Real::NaN,
            NumeralView::Infinite { negative } => if negative {
                Real::NegInfinity
            } else {
                Real::Infinity
            },
        }
    }
}

/// The quantity of a decimal numeral; none where the text is no numeral.
pub open spec fn parsed_real(s: Seq<char>) -> Option<Real> {
    match numeral(s) {
        None => None,
        Some(n) => Some(n.quantity()),
    }
}

proof fn lemma_digits_end(s: Seq<char>, from: int)
    requires
        0 <= from <= s.len(),
    ensures
        from <= digits_end(s, from) <= s.len(),
        all_digits(s.subrange(from, digits_end(s, from))),
    decreases s.len() - from,
{
    if from < s.len() && ascii_digit(s[from]) {
        lemma_digits_end(s, from + 1);
        let end = digits_end(s, from);
        let run = s.subrange(from, end);
        assert forall|k: int| #![trigger run[k]] 0 <= k < run.len() implies ascii_digit(run[k]) by {
            if k > 0 {
                assert(run[k] == s.subrange(from + 1, end)[k - 1]);
            }
        }
    }
}

fn find_digits_end(s: &Vec<char>, from: usize) -> (r: usize)
    requires
        from <= s@.len(),
    ensures
        r == digits_end(s@, from as int),
        from <= r <= s@.len(),
{
    let mut i: usize = from;
    while i < s.len() && '0' <= s[i] && s[i] <= '9'
        invariant
            from <= i <= s@.len(),
            digits_end(s@, from as int) == digits_end(s@, i as int),
        decreases s@.len() - i,
    {
        i = i + 1;
    }
    i
}

fn find_exponent(s: &Vec<char>, at: usize) -> (r: Option<i128>)
    requires
        at <= s@.len(),
    ensures
        match exponent(s@, at as int) {
            Some(e) => r == Some(e as i128) && -MAX_EXPONENT <= e <= MAX_EXPONENT,
            None => r is None,
        },
{
    if at == s.len() {
        return Some(0);
    }
    if s[at] != 'e' && s[at] != 'E' {
        return None;
    }
    let signed: bool = at + 1 < s.len() && (s[at + 1] == '-' || s[at + 1] == '+');
    let from: usize = if signed {
        at + 2
    } else {
        at + 1
    };
    let ghost digits = s@.skip(from as int);
    if from == s.len() {
        return None;
    }
    let mut n: i128 = 0;
    let mut i: usize = from;
    assert(digits.take(0) =~= Seq::empty());
    while i < s.len()
        invariant
            at < s@.len(),
            s@[at as int] == 'e' || s@[at as int] == 'E',
            signed == (at + 1 < s@.len() && (s@[at + 1] == '-' || s@[at + 1] == '+')),
            from == (if signed {
                at + 2
            } else {
                at + 1
            }),
            from <= i <= s@.len(),
            digits == s@.skip(from as int),
            all_digits(digits.take(i - from)),
            n == (if value(digits.take(i - from)) > MAX_EXPONENT {
                MAX_EXPONENT as int
            } else {
                value(digits.take(i - from)) as int
            }),
        decreases s@.len() - i,
    {
        let c: char = s[i];
        let ghost now = digits.take(i - from + 1);
        assert(now.drop_last() =~= digits.take(i - from));
        assert(now.last() == c);
        if !('0' <= c && c <= '9') {
            assert(digits[i - from] == c);
            assert(!all_digits(digits));
            return None;
        }
        proof {
            lemma_digits_push(digits, i - from);
        }
        let m: i128 = n * 10 + (c as u32 - 48) as i128;
        n = if m > MAX_EXPONENT {
            MAX_EXPONENT
        } else {
            m
        };
        i = i + 1;
    }
    assert(digits.take(i - from) =~= digits);
    if signed && s[at + 1] == '-' {
        Some(-n)
    } else {
        Some(n)
    }
}

proof fn lemma_ten_to_grows(v: nat, a: nat, b: nat)
    requires
        a <= b,
    ensures
        0 < ten_to(a) <= ten_to(b),
        v * ten_to(a) <= v * ten_to(b),
    decreases b,
{
    if a < b {
        lemma_ten_to_grows(v, a, (b - 1) as nat);
    } else if a > 0 {
        lemma_ten_to_grows(v, (a - 1) as nat, (a - 1) as nat);
    }
    assert(v * ten_to(a) <= v * ten_to(b)) by (nonlinear_arith)
        requires
            ten_to(a) <= ten_to(b),
    ;
}

pub(crate) fn scale(digits: &Vec<char>, p: i128) -> (n: u128)
    requires
        all_digits(digits@),
    ensures
        clamped(n as int) == clamped(scaled(digits@, p as int)),
        n <= 0x1_0000_0000_0000_0001,
{
    scale_to(digits, p, 0x1_0000_0000_0000_0000)
}

/// A natural number up to a bound.
pub open spec fn capped_at(n: int, max: int) -> int {
    if n > max {
        max
    } else {
        n
    }
}

fn cap_at(n: u128, max: u128) -> (r: u128)
    ensures
        r == capped_at(n as int, max as int),
{
    if n > max {
        max
    } else {
        n
    }
}

pub(crate) fn scale_to(digits: &Vec<char>, p: i128, max: u128) -> (n: u128)
    requires
        all_digits(digits@),
        0 < max <= 10_000_000_000_000_000_000_000_000_000_000_000_000,
    ensures
        capped_at(n as int, max as int) == capped_at(scaled(digits@, p as int), max as int),
        n <= max + 1,
        scaled(digits@, p as int) >= 0,
{
    if p < 0 {
        return 0;
    }
    let mut n: u128 = 0;
    let mut i: usize = 0;
    assert(digits@.take(0) =~= Seq::empty());
    while i < digits.len() && (i as i128) < p
        invariant
            i <= digits@.len(),
            0 <= i <= p,
            all_digits(digits@),
            n == capped_at(value(digits@.take(i as int)) as int, max as int),
            0 < max <= 10_000_000_000_000_000_000_000_000_000_000_000_000,
        decreases digits@.len() - i,
    {
        let c: char = digits[i];
        let ghost now = digits@.take(i + 1);
        assert(now.drop_last() =~= digits@.take(i as int));
        assert(now.last() == c);
        assert(ascii_digit(c));
        n = cap_at(n * 10 + (c as u32 - 48) as u128, max);
        i = i + 1;
    }
    if i < digits.len() {
        let up: u128 = if digits[i] >= '5' {
            1
        } else {
            0
        };
        return n + up;
    }
    assert(digits@.take(i as int) =~= digits@);
    let ghost v = value(digits@);
    let ghost len = digits@.len() as int;
    let mut k: i128 = i as i128;
    assert(v * ten_to(0) == v) by (nonlinear_arith)
        requires
            ten_to(0) == 1,
    ;
    while k < p && n != 0 && n < max
        invariant
            len <= k <= p,
            n == capped_at((v * ten_to((k - len) as nat)) as int, max as int),
            0 < max <= 10_000_000_000_000_000_000_000_000_000_000_000_000,
        decreases p - k,
    {
        proof {
            assert(v * ten_to((k + 1 - len) as nat) == 10 * (v * ten_to((k - len) as nat)))
                by (nonlinear_arith)
                requires
                    ten_to((k + 1 - len) as nat) == 10 * ten_to((k - len) as nat),
            ;
        }
        n = cap_at(n * 10, max);
        k = k + 1;
    }
    proof {
        let (a, b) = ((k - len) as nat, (p - len) as nat);
        lemma_ten_to_grows(v, a, b);
        if n == 0 {
            assert(v == 0) by (nonlinear_arith)
                requires
                    v * ten_to(a) == 0,
                    ten_to(a) > 0,
            ;
            assert(v * ten_to(b) == 0) by (nonlinear_arith)
                requires
                    v == 0,
            ;
        }
    }
    n
}

fn is_word(s: &Vec<char>, word: &str) -> (r: bool)
    ensures
        r == (s@.map_values(|c: char| ascii_lower(c)) == word@),
{
    let w: Vec<char> = chars_of(word);
    let ghost lower = s@.map_values(|c: char| ascii_lower(c));
    if s.len() != w.len() {
        assert(lower.len() != w@.len());
        return false;
    }
    let mut i: usize = 0;
    while i < s.len()
        invariant
            i <= s@.len(),
            s@.len() == w@.len(),
            w@ == word@,
            lower == s@.map_values(|c: char| ascii_lower(c)),
            forall|k: int| 0 <= k < i ==> lower[k] == #[trigger] w@[k],
        decreases s@.len() - i,
    {
        let c: char = if 'A' <= s[i] && s[i] <= 'Z' {
            (s[i] as u8 + 32) as char
        } else {
            s[i]
        };
        assert(c == ascii_lower(s@[i as int]));
        if c != w[i] {
            assert(lower[i as int] != w@[i as int]);
            return false;
        }
        i = i + 1;
    }
    assert(lower =~= word@);
    true
}

fn read_unsigned(s: &Vec<char>, negative: bool) -> (r: Option<Numeral>)
    ensures
        match unsigned_numeral(s@, negative) {
            Some(n) => r is Some && r->0@ == n,
            None => r is None,
        },
        r matches Some(Numeral::Decimal { digits, point, .. }) ==> all_digits(digits@)
            && digits@.len() > 0 && -MAX_EXPONENT <= point <= MAX_EXPONENT + usize::MAX,
{
    if is_word(s, "inf") || is_word(s, "infinity") {
        return Some(Numeral::Infinite { negative });
    }
    if is_word(s, "nan") {
        return Some(Numeral::NaN);
    }
    let whole: usize = find_digits_end(s, 0);
    proof {
        lemma_digits_end(s@, 0);
    }
    let mut digits: Vec<char> = crate::text::slice_chars(s, 0, whole);
    let mut end: usize = whole;
    assert(digits@ =~= s@.take(whole as int) + Seq::<char>::empty());
    if whole < s.len() && s[whole] == '.' {
        end = find_digits_end(s, whole + 1);
        let mut fraction: Vec<char> = crate::text::slice_chars(s, whole + 1, end);
        proof {
            lemma_digits_end(s@, whole + 1);
        }
        let ghost (a, b) = (digits@, fraction@);
        digits.append(&mut fraction);
        assert(digits@ == a + b);
        assert(all_digits(digits@)) by {
            assert forall|k: int| #![trigger digits@[k]] 0 <= k < digits@.len() implies ascii_digit(
                digits@[k],
            ) by {
                if k < a.len() {
                    assert(digits@[k] == a[k]);
                } else {
                    assert(digits@[k] == b[k - a.len()]);
                }
            }
        }
        assert(digits@ =~= s@.take(whole as int) + s@.subrange(whole + 1, end as int));
    }
    if digits.len() == 0 {
        return None;
    }
    match find_exponent(s, end) {
        None => None,
        Some(e) => Some(Numeral::Decimal { negative, digits, point: whole as i128 + e }),
    }
}

/// Reads a decimal numeral: an optional sign, digits with an optional point
/// and exponent, or one of the words for infinity and not-a-number.
pub fn read_numeral(text: &str) -> (r: Option<Numeral>)
    ensures
        match numeral(text@) {
            Some(n) => r is Some && r->0@ == n,
            None => r is None,
        },
        r matches Some(Numeral::Decimal { digits, point, .. }) ==> all_digits(digits@)
            && digits@.len() > 0 && -MAX_EXPONENT <= point <= MAX_EXPONENT + usize::MAX,
{
    let all: Vec<char> = chars_of(text);
    if all.len() > 0 && (all[0] == '-' || all[0] == '+') {
        let s: Vec<char> = crate::text::slice_chars(&all, 1, all.len());
        assert(s@ =~= text@.drop_first());
        read_unsigned(&s, all[0] == '-')
    } else {
        read_unsigned(&all, false)
    }
}

/// Reads a decimal numeral. The quantity is kept to the nearest billionth,
/// within the range of `Real`.
pub fn parse_real(text: &str) -> (r: Option<Real>)
    ensures
        r == parsed_real(text@),
{
    match read_numeral(text) {
        None => None,
        Some(Numeral::NaN) => Some(Real::NaN),
        Some(Numeral::Infinite { negative }) => Some(
            if negative {
                Real::NegInfinity
            } else {
                Real::Infinity
            },
        ),
        Some(Numeral::Decimal { negative, digits, point }) => {
            let n: u128 = scale(&digits, point + 9);
            let v: i64 = clamp(n as i128);
            Some(
                Real::Nano(
                    if negative {
                        -v
                    } else {
                        v
                    },
                ),
            )
        },
    }
}

// ------------------------------------------------------------ exact comparison

/// The digit at place `k` of a numeral's digits; zero beyond them.
pub open spec fn digit_at(digits: Seq<char>, k: int) -> int {
    if 0 <= k < digits.len() {
        digits[k] as int - 48
    } else {
        0
    }
}

/// The number that the first `k` places of a numeral's digits make, with zeros
/// beyond them.
pub open spec fn leading(digits: Seq<char>, k: int) -> nat {
    if k <= 0 {
        0
    } else if k <= digits.len() {
        value(digits.take(k))
    } else {
        value(digits) * ten_to((k - digits.len()) as nat)
    }
}

/// A positive power of ten, or one.
pub open spec fn raised(n: int) -> nat {
    ten_to(if n > 0 {
        n as nat
    } else {
        0
    })
}

/// A numeral's digits as a whole number, on a scale that it shares with another
/// numeral: the two numbers are in the ratio of the numerals.
pub open spec fn on_scale(
    digits: Seq<char>,
    point: int,
    other: Seq<char>,
    other_point: int,
) -> int {
    (value(digits) * raised((point - digits.len()) - (other_point - other.len()))) as int
}

/// A numeral of a positive number stays positive on any scale.
pub(crate) proof fn lemma_on_scale_positive(
    digits: Seq<char>,
    point: int,
    other: Seq<char>,
    other_point: int,
)
    requires
        value(digits) > 0,
    ensures
        on_scale(digits, point, other, other_point) > 0,
{
    let n = (point - digits.len()) - (other_point - other.len());
    let e: nat = if n > 0 {
        n as nat
    } else {
        0
    };
    lemma_ten_to_grows(1, e, e);
    assert(value(digits) * ten_to(e) > 0) by (nonlinear_arith)
        requires
            value(digits) > 0,
            ten_to(e) > 0,
    ;
}

/// Whether digits make zero.
pub fn is_zero(digits: &Vec<char>) -> (r: bool)
    requires
        all_digits(digits@),
    ensures
        r == (value(digits@) == 0),
{
    let mut i: usize = 0;
    assert(digits@.take(0) =~= Seq::empty());
    while i < digits.len()
        invariant
            i <= digits@.len(),
            all_digits(digits@),
            value(digits@.take(i as int)) == 0,
        decreases digits@.len() - i,
    {
        let ghost now = digits@.take(i + 1);
        assert(now.drop_last() =~= digits@.take(i as int));
        assert(now.last() == digits@[i as int]);
        assert(ascii_digit(digits@[i as int]));
        if digits[i] != '0' {
            proof {
                lemma_value_grows(digits@, i + 1);
            }
            return false;
        }
        i = i + 1;
    }
    assert(digits@.take(i as int) =~= digits@);
    true
}

/// The first digits of a number make no more than all of them.
pub(crate) proof fn lemma_value_grows(digits: Seq<char>, k: int)
    requires
        all_digits(digits),
        0 <= k <= digits.len(),
    ensures
        value(digits.take(k)) <= value(digits),
    decreases digits.len() - k,
{
    if k < digits.len() {
        assert(digits.take(k + 1).drop_last() =~= digits.take(k));
        assert(ascii_digit(digits[k]));
        lemma_value_grows(digits, k + 1);
    } else {
        assert(digits.take(k) =~= digits);
    }
}

proof fn lemma_leading_step(digits: Seq<char>, k: int)
    requires
        all_digits(digits),
    ensures
        leading(digits, k + 1) == 10 * leading(digits, k) + digit_at(digits, k),
        0 <= digit_at(digits, k) <= 9,
{
    if 0 <= k < digits.len() {
        assert(ascii_digit(digits[k]));
        assert(digits.take(k + 1).drop_last() =~= digits.take(k));
        assert(digits.take(k + 1).last() == digits[k]);
        if k == 0 {
            assert(digits.take(0) =~= Seq::empty());
        }
    } else if k >= digits.len() {
        let (v, e) = (value(digits), (k - digits.len()) as nat);
        assert(ten_to((k + 1 - digits.len()) as nat) == 10 * ten_to(e));
        assert(v * (10 * ten_to(e)) == 10 * (v * ten_to(e))) by (nonlinear_arith);
        if k == digits.len() {
            assert(digits.take(k) =~= digits);
            assert(ten_to(0) == 1);
            assert(v * 1 == v);
        }
        if k == 0 {
            assert(v == 0);
            assert(0 * ten_to(1) == 0);
        }
    }
}

/// `q` times the first number less `p` times the second, over the places above
/// place `i`, counted from the higher of the two points' places.
spec fn excess(
    a: Seq<char>,
    a_point: int,
    b: Seq<char>,
    b_point: int,
    q: int,
    p: int,
    i: int,
) -> int {
    let top = if a_point > b_point {
        a_point
    } else {
        b_point
    };
    q * leading(a, a_point - top + i) - p * leading(b, b_point - top + i)
}

proof fn lemma_excess_step(
    a: Seq<char>,
    a_point: int,
    b: Seq<char>,
    b_point: int,
    q: int,
    p: int,
    i: int,
)
    requires
        all_digits(a),
        all_digits(b),
    ensures
        ({
            let top = if a_point > b_point {
                a_point
            } else {
                b_point
            };
            excess(a, a_point, b, b_point, q, p, i + 1) == 10 * excess(
                a,
                a_point,
                b,
                b_point,
                q,
                p,
                i,
            ) + q * digit_at(a, a_point - top + i) - p * digit_at(b, b_point - top + i)
        }),
{
    let top = if a_point > b_point {
        a_point
    } else {
        b_point
    };
    let (j, k) = (a_point - top + i, b_point - top + i);
    lemma_leading_step(a, j);
    lemma_leading_step(b, k);
    let (x, y) = (leading(a, j) as int, leading(b, k) as int);
    let (c, d) = (digit_at(a, j), digit_at(b, k));
    assert(q * (10 * x + c) == 10 * (q * x) + q * c) by (nonlinear_arith);
    assert(p * (10 * y + d) == 10 * (p * y) + p * d) by (nonlinear_arith);
}

proof fn lemma_excess_settled(
    a: Seq<char>,
    a_point: int,
    b: Seq<char>,
    b_point: int,
    q: int,
    p: int,
    i: int,
    n: int,
)
    requires
        all_digits(a),
        all_digits(b),
        q > 0,
        p > 0,
        i <= n,
    ensures
        excess(a, a_point, b, b_point, q, p, i) >= p ==> excess(a, a_point, b, b_point, q, p, n)
            >= p,
        excess(a, a_point, b, b_point, q, p, i) <= -q ==> excess(a, a_point, b, b_point, q, p, n)
            <= -q,
    decreases n - i,
{
    if i < n {
        let top = if a_point > b_point {
            a_point
        } else {
            b_point
        };
        lemma_excess_step(a, a_point, b, b_point, q, p, i);
        lemma_leading_step(a, a_point - top + i);
        lemma_leading_step(b, b_point - top + i);
        let (c, d) = (digit_at(a, a_point - top + i), digit_at(b, b_point - top + i));
        assert(0 <= q * c <= 9 * q) by (nonlinear_arith)
            requires
                0 <= c <= 9,
                q > 0,
        ;
        assert(0 <= p * d <= 9 * p) by (nonlinear_arith)
            requires
                0 <= d <= 9,
                p > 0,
        ;
        lemma_excess_settled(a, a_point, b, b_point, q, p, i + 1, n);
    }
}

fn digit_of(digits: &Vec<char>, k: i128) -> (d: i128)
    requires
        all_digits(digits@),
    ensures
        d == digit_at(digits@, k as int),
        0 <= d <= 9,
{
    if k < 0 || k >= digits.len() as i128 {
        return 0;
    }
    assert(ascii_digit(digits@[k as int]));
    digits[k as usize] as i128 - 48
}

/// Whether `q` times one numeral exceeds `p` times another, exactly. The
/// numerals are compared place by place from the highest, until the rest of
/// their digits cannot matter.
pub fn exceeds(
    a: &Vec<char>,
    a_point: i128,
    b: &Vec<char>,
    b_point: i128,
    q: u64,
    p: u64,
) -> (r: bool)
    requires
        all_digits(a@),
        all_digits(b@),
        -MAX_EXPONENT <= a_point <= MAX_EXPONENT + usize::MAX,
        -MAX_EXPONENT <= b_point <= MAX_EXPONENT + usize::MAX,
        q > 0,
        p > 0,
    ensures
        r == (q * on_scale(a@, a_point as int, b@, b_point as int) > p * on_scale(
            b@,
            b_point as int,
            a@,
            a_point as int,
        )),
{
    let top: i128 = if a_point > b_point {
        a_point
    } else {
        b_point
    };
    let a_end: i128 = top - a_point + a.len() as i128;
    let b_end: i128 = top - b_point + b.len() as i128;
    let n: i128 = if a_end > b_end {
        a_end
    } else {
        b_end
    };
    let ghost (x, y, qi, pi) = (a_point as int, b_point as int, q as int, p as int);
    proof {
        let (ka, kb) = (x - top + n, y - top + n);
        let (da, db) = (x - a@.len() - (y - b@.len()), y - b@.len() - (x - a@.len()));
        lemma_leading_whole(a@, ka);
        lemma_leading_whole(b@, kb);
        assert(ka - a@.len() == if da > 0 {
            da
        } else {
            0
        });
        assert(kb - b@.len() == if db > 0 {
            db
        } else {
            0
        });
        assert(excess(a@, x, b@, y, qi, pi, n as int) == qi * on_scale(a@, x, b@, y) - pi * on_scale(
            b@,
            y,
            a@,
            x,
        ));
        assert(qi * 0 == 0 && pi * 0 == 0);
    }
    let mut d: i128 = 0;
    let mut i: i128 = 0;
    while i < n
        invariant
            0 <= i <= n,
            n <= 4 * MAX_EXPONENT,
            -3 * MAX_EXPONENT <= a_point - top <= 0,
            -3 * MAX_EXPONENT <= b_point - top <= 0,
            x == a_point && y == b_point && qi == q && pi == p,
            top == (if a_point > b_point {
                a_point
            } else {
                b_point
            }),
            all_digits(a@),
            all_digits(b@),
            q > 0,
            p > 0,
            -qi < d < pi,
            d == excess(a@, x, b@, y, qi, pi, i as int),
            excess(a@, x, b@, y, qi, pi, n as int) == qi * on_scale(a@, x, b@, y) - pi * on_scale(
                b@,
                y,
                a@,
                x,
            ),
        decreases n - i,
    {
        let c: i128 = digit_of(a, a_point - top + i);
        let e: i128 = digit_of(b, b_point - top + i);
        proof {
            lemma_excess_step(a@, x, b@, y, qi, pi, i as int);
            assert(0 <= qi * c <= 9 * qi) by (nonlinear_arith)
                requires
                    0 <= c <= 9,
                    qi > 0,
            ;
            assert(0 <= pi * e <= 9 * pi) by (nonlinear_arith)
                requires
                    0 <= e <= 9,
                    pi > 0,
            ;
            lemma_excess_settled(a@, x, b@, y, qi, pi, i + 1, n as int);
        }
        d = 10 * d + q as i128 * c - p as i128 * e;
        i = i + 1;
        if d >= p as i128 {
            return true;
        }
        if d <= -(q as i128) {
            return false;
        }
    }
    d > 0
}

proof fn lemma_leading_whole(digits: Seq<char>, k: int)
    requires
        k >= digits.len(),
    ensures
        leading(digits, k) == value(digits) * ten_to((k - digits.len()) as nat),
{
    if k == digits.len() {
        assert(digits.take(k) =~= digits);
        assert(ten_to(0) == 1);
        assert(value(digits) * 1 == value(digits));
        if k == 0 {
            assert(value(digits) == 0);
        }
    }
}

// ---------------------------------------------------------------------- laws

/// Digits behind digits: the first ones count as many tens as there are others.
pub proof fn law_digits_behind_digits(a: Seq<char>, b: Seq<char>)
    requires
        all_digits(b),
    ensures
        value(a + b) == value(a) * ten_to(b.len()) + value(b),
    decreases b.len(),
{
    if b.len() == 0 {
        assert(a + b =~= a);
        assert(ten_to(0) == 1);
        assert(value(a) * 1 == value(a));
    } else {
        let rest = b.drop_last();
        assert((a + b).last() == b.last());
        assert(ascii_digit(b[b.len() - 1]));
        assert forall|i: int| #![trigger rest[i]] 0 <= i < rest.len() implies ascii_digit(
            rest[i],
        ) by {
            assert(b[i] == rest[i]);
        }
        law_digits_behind_digits(a, rest);
        assert((a + b).drop_last() =~= a + rest);
        assert(value(a) * ten_to(b.len()) == 10 * (value(a) * ten_to(rest.len())))
            by (nonlinear_arith)
            requires
                ten_to(b.len()) == 10 * ten_to(rest.len()),
        ;
    }
}

pub(crate) proof fn lemma_digits_run(s: Seq<char>, from: int, to: int)
    requires
        0 <= from <= to <= s.len(),
        forall|i: int| #![trigger s[i]] from <= i < to ==> ascii_digit(s[i]),
        to < s.len() ==> !ascii_digit(s[to]),
    ensures
        digits_end(s, from) == to,
    decreases to - from,
{
    if from < to {
        lemma_digits_run(s, from + 1, to);
    }
}

/// A numeral's digits around a point are read as they stand, with or without a
/// minus sign.
pub proof fn law_decimals_are_read(w: nat, f: Seq<char>)
    requires
        all_digits(f),
        f.len() > 0,
    ensures
        ({
            let whole = crate::text::dec(w);
            let read = |negative: bool|
                Some(
                    NumeralView::Decimal { negative, digits: whole + f, point: whole.len() as int },
                );
            &&& numeral(whole + "."@ + f) == read(false)
            &&& numeral("-"@ + (whole + "."@ + f)) == read(true)
        }),
{
    let whole = crate::text::dec(w);
    let n = whole.len() as int;
    crate::text::law_numerals_read_back(w);
    reveal_strlit(".");
    reveal_strlit("-");
    let s = whole + "."@ + f;
    lemma_no_word(s, whole);
    assert(s[n] == '.');
    assert forall|i: int| #![trigger s[i]] 0 <= i < n implies ascii_digit(s[i]) by {
        assert(s[i] == whole[i]);
    }
    lemma_digits_run(s, 0, n);
    assert forall|i: int| #![trigger s[i]] n + 1 <= i < s.len() implies ascii_digit(s[i]) by {
        assert(s[i] == f[i - n - 1]);
    }
    lemma_digits_run(s, n + 1, s.len() as int);
    assert(s.subrange(n + 1, s.len() as int) =~= f);
    assert(s.take(n) =~= whole);
    assert(s[0] == whole[0]);
    let t = "-"@ + s;
    assert(t.drop_first() =~= s);
    assert(t[0] == '-');
}

/// A whole numeral is read as it stands, with or without a minus sign.
pub proof fn law_whole_numerals_are_read(w: nat)
    ensures
        ({
            let whole = crate::text::dec(w);
            let read = |negative: bool|
                Some(NumeralView::Decimal { negative, digits: whole, point: whole.len() as int });
            &&& numeral(whole) == read(false)
            &&& numeral("-"@ + whole) == read(true)
        }),
{
    let s = crate::text::dec(w);
    crate::text::law_numerals_read_back(w);
    reveal_strlit("-");
    lemma_no_word(s, s);
    lemma_digits_run(s, 0, s.len() as int);
    assert(s.take(s.len() as int) + Seq::<char>::empty() =~= s);
    let t = "-"@ + s;
    assert(t.drop_first() =~= s);
    assert(t[0] == '-');
    assert(ascii_digit(s[0]));
}

/// A text that begins with a digit is no word.
proof fn lemma_no_word(s: Seq<char>, digits: Seq<char>)
    requires
        digits.len() > 0,
        all_digits(digits),
        s.len() >= digits.len(),
        s[0] == digits[0],
    ensures
        ({
            let lower = s.map_values(|c: char| ascii_lower(c));
            lower != "inf"@ && lower != "infinity"@ && lower != "nan"@
        }),
{
    let lower = s.map_values(|c: char| ascii_lower(c));
    reveal_strlit("inf");
    reveal_strlit("infinity");
    reveal_strlit("nan");
    assert(ascii_digit(digits[0]));
    assert(lower[0] == s[0]);
}

proof fn lemma_trimmed_digits(n: nat, width: nat)
    requires
        n < ten_to(width),
    ensures
        ({
            let f = crate::number::trimmed(n, width);
            &&& f.len() <= width
            &&& all_digits(f)
            &&& value(f) * ten_to((width - f.len()) as nat) == n
        }),
    decreases width,
{
    if width == 0 {
        assert(crate::number::trimmed(n, width) =~= Seq::empty());
    } else if n % 10 == 0 {
        let w = (width - 1) as nat;
        lemma_trimmed_digits(n / 10, w);
        let f = crate::number::trimmed(n / 10, w);
        assert(value(f) * ten_to((width - f.len()) as nat) == 10 * (value(f) * ten_to(
            (w - f.len()) as nat,
        ))) by (nonlinear_arith)
            requires
                ten_to((width - f.len()) as nat) == 10 * ten_to((w - f.len()) as nat),
        ;
    } else {
        crate::text::law_padded_digits_read_back(n, width);
        assert(ten_to(0) == 1);
        assert(value(crate::number::trimmed(n, width)) * 1 == n);
    }
}

/// A decimal text of `n` units, `places` of which make up one of its whole part, in
/// its shortest form or with a fraction of zero, is read back to the unit.
pub(crate) proof fn lemma_decimal_reads_back(n: nat, places: nat, unit: nat)
    requires
        unit == ten_to(places),
    ensures
        ({
            let whole = crate::text::dec(n / unit);
            let f = crate::number::trimmed(n % unit, places);
            let p = whole.len() + places;
            &&& all_digits(f)
            &&& f.len() <= places
            &&& scaled(whole + f, p as int) == n
            &&& places > 0 && f.len() == 0 ==> scaled(whole + "0"@, p as int) == n
            &&& all_digits("0"@)
            &&& "0"@.len() == 1
        }),
{
    lemma_ten_to_positive(places);
    let w = n / unit;
    let m = n % unit;
    vstd::arithmetic::div_mod::lemma_fundamental_div_mod(n as int, unit as int);
    vstd::arithmetic::div_mod::lemma_mod_bound(n as int, unit as int);
    let whole = crate::text::dec(w);
    let f = crate::number::trimmed(m, places);
    crate::text::law_numerals_read_back(w);
    lemma_trimmed_digits(m, places);
    law_digits_behind_digits(whole, f);
    let rest = (places - f.len()) as nat;
    lemma_ten_to_adds(f.len(), rest);
    let p = whole.len() + places;
    assert(value(whole + f) * ten_to(rest) == w * unit + m) by (nonlinear_arith)
        requires
            value(whole + f) == w * ten_to(f.len()) + value(f),
            ten_to(f.len()) * ten_to(rest) == unit,
            value(f) * ten_to(rest) == m,
    ;
    assert(w * unit == unit * w) by (nonlinear_arith);
    if rest == 0 {
        assert(ten_to(0) == 1);
    }
    reveal_strlit("0");
    let zero = "0"@;
    assert(zero =~= Seq::empty().push('0'));
    crate::text::law_digits_count_by_place(Seq::empty(), '0');
    assert(all_digits(zero));
    if places > 0 && f.len() == 0 {
        law_digits_behind_digits(whole, zero);
        assert(m == 0) by (nonlinear_arith)
            requires
                value(f) * ten_to(rest) == m,
                value(f) == 0,
        ;
        let r = (places - 1) as nat;
        lemma_ten_to_adds(1, r);
        assert(ten_to(1) == 10) by {
            assert(ten_to(0) == 1);
        }
        assert(value(whole + zero) * ten_to(r) == w * unit) by (nonlinear_arith)
            requires
                value(whole + zero) == w * 10 + 0,
                10 * ten_to(r) == unit,
        ;
        if r == 0 {
            assert(ten_to(0) == 1);
        }
    }
}

proof fn lemma_ten_to_positive(n: nat)
    ensures
        ten_to(n) > 0,
    decreases n,
{
    if n > 0 {
        lemma_ten_to_positive((n - 1) as nat);
    }
}

proof fn lemma_ten_to_adds(a: nat, b: nat)
    ensures
        ten_to(a) * ten_to(b) == ten_to(a + b),
    decreases a,
{
    if a > 0 {
        lemma_ten_to_adds((a - 1) as nat, b);
        assert(ten_to(a) * ten_to(b) == 10 * (ten_to((a - 1) as nat) * ten_to(b)))
            by (nonlinear_arith)
            requires
                ten_to(a) == 10 * ten_to((a - 1) as nat),
        ;
        assert((a + b - 1) as nat == (a - 1) as nat + b);
    } else {
        assert(ten_to(0) == 1);
        assert(1 * ten_to(b) == ten_to(b));
    }
}

/// What is written in seconds is read back, to the nanosecond.
pub proof fn law_written_seconds_read_back(n: i64)
    requires
        n > i64::MIN,
    ensures
        parsed_real(crate::number::seconds_text(n as int)) == Some(Real::Nano(n)),
{
    let size: nat = if n < 0 {
        (-n) as nat
    } else {
        n as nat
    };
    assert(ten_to(9) == 1_000_000_000) by {
        reveal_with_fuel(ten_to, 10);
    }
    lemma_decimal_reads_back(size, 9, 1_000_000_000);
    let whole = crate::text::dec(size / 1_000_000_000);
    let f = crate::number::trimmed(size % 1_000_000_000, 9);
    let shown = if f.len() == 0 {
        "0"@
    } else {
        f
    };
    law_decimals_are_read(size / 1_000_000_000, shown);
    reveal_strlit("");
    reveal_strlit("-");
    let t = whole + "."@ + shown;
    if n < 0 {
        assert(crate::number::seconds_text(n as int) =~= "-"@ + t);
    } else {
        assert(crate::number::seconds_text(n as int) =~= t);
    }
}

/// What is written of a quantity is read back.
pub proof fn law_written_quantities_read_back(n: i64)
    requires
        n > i64::MIN,
    ensures
        parsed_real(crate::number::real_text(Real::Nano(n))) == Some(Real::Nano(n)),
{
    let size: nat = if n < 0 {
        (-n) as nat
    } else {
        n as nat
    };
    assert(ten_to(9) == 1_000_000_000) by {
        reveal_with_fuel(ten_to, 10);
    }
    lemma_decimal_reads_back(size, 9, 1_000_000_000);
    let whole = crate::text::dec(size / 1_000_000_000);
    let f = crate::number::trimmed(size % 1_000_000_000, 9);
    reveal_strlit("-");
    reveal_strlit(".");
    let t = if f.len() == 0 {
        whole
    } else {
        whole + "."@ + f
    };
    if f.len() == 0 {
        law_whole_numerals_are_read(size / 1_000_000_000);
        assert(whole + f =~= whole);
    } else {
        law_decimals_are_read(size / 1_000_000_000, f);
    }
    assert(crate::number::decimal(size) =~= t);
    if n < 0 {
        assert(crate::number::real_text(Real::Nano(n)) =~= "-"@ + t);
    }
}

/// A numeral is read as an unsigned number iff it is within the bound.
pub proof fn law_unsigned_numerals_read_back(n: nat, max: int)
    ensures
        unsigned(crate::text::dec(n), max) == if n <= max {
            Some(n as int)
        } else {
            None
        },
        unsigned(Seq::empty(), max) is None,
{
    crate::text::law_numerals_read_back(n);
    assert(ascii_digit(crate::text::dec(n)[0]));
}

/// An exponent moves the point: on by so many places, or back where it is negative.
pub proof fn law_exponents_move_the_point(w: nat, f: Seq<char>, k: nat)
    requires
        all_digits(f),
        f.len() > 0,
        k <= 1_000_000_000_000_000_000_000_000_000_000,
    ensures
        ({
            let whole = crate::text::dec(w);
            let base = whole + "."@ + f;
            let read = |point: int|
                Some(NumeralView::Decimal { negative: false, digits: whole + f, point });
            &&& numeral(base + ("e"@ + crate::text::dec(k))) == read((whole.len() + k) as int)
            &&& numeral(base + ("E+"@ + crate::text::dec(k))) == read((whole.len() + k) as int)
            &&& numeral(base + ("e-"@ + crate::text::dec(k))) == read(whole.len() - k)
            &&& numeral(base + "e"@) is None
        }),
{
    let d = crate::text::dec(k);
    crate::text::law_numerals_read_back(k);
    reveal_strlit("e");
    reveal_strlit("E+");
    reveal_strlit("e-");
    let (p, q, r) = ("e"@ + d, "E+"@ + d, "e-"@ + d);
    lemma_tail_is_read(w, f, p);
    lemma_tail_is_read(w, f, q);
    lemma_tail_is_read(w, f, r);
    lemma_tail_is_read(w, f, "e"@);
    let n = (crate::text::dec(w).len() + 1 + f.len()) as int;
    let base = crate::text::dec(w) + "."@ + f;
    reveal_strlit(".");
    assert(base.len() == n);
    assert((base + p).skip(n + 1) =~= d);
    assert((base + q).skip(n + 2) =~= d);
    assert((base + r).skip(n + 2) =~= d);
    assert((base + p)[n] == 'e' && (base + q)[n] == 'E' && (base + r)[n] == 'e');
    assert((base + q)[n + 1] == '+' && (base + r)[n + 1] == '-');
    assert((base + p)[n + 1] == d[0]);
    assert(ascii_digit(d[0]));
    assert((base + "e"@)[n] == 'e');
    assert((base + "e"@).skip(n + 1).len() == 0);
}

proof fn lemma_tail_is_read(w: nat, f: Seq<char>, rest: Seq<char>)
    requires
        all_digits(f),
        f.len() > 0,
        rest.len() > 0,
        rest[0] == 'e' || rest[0] == 'E',
    ensures
        ({
            let whole = crate::text::dec(w);
            let s = whole + "."@ + f + rest;
            numeral(s) == match exponent(s, (whole.len() + 1 + f.len()) as int) {
                None => None,
                Some(e) => Some(
                    NumeralView::Decimal {
                        negative: false,
                        digits: whole + f,
                        point: whole.len() + e,
                    },
                ),
            }
        }),
{
    let whole = crate::text::dec(w);
    let n = whole.len() as int;
    let m = n + 1 + f.len();
    crate::text::law_numerals_read_back(w);
    reveal_strlit(".");
    let s = whole + "."@ + f + rest;
    lemma_no_word(s, whole);
    assert(s[n] == '.');
    assert(s[m] == rest[0]);
    assert forall|i: int| #![trigger s[i]] 0 <= i < n implies ascii_digit(s[i]) by {
        assert(s[i] == whole[i]);
    }
    lemma_digits_run(s, 0, n);
    assert forall|i: int| #![trigger s[i]] n + 1 <= i < m implies ascii_digit(s[i]) by {
        assert(s[i] == f[i - n - 1]);
    }
    lemma_digits_run(s, n + 1, m);
    assert(s.subrange(n + 1, m) =~= f);
    assert(s.take(n) =~= whole);
    assert(s[0] == whole[0]);
}

/// Digits beyond the last that counts round it, up from five on.
pub proof fn law_scaling_rounds_the_last_digit(digits: Seq<char>, p: int)
    requires
        all_digits(digits),
        0 <= p < digits.len(),
    ensures
        ({
            let kept = value(digits.take(p));
            &&& '5' <= digits[p] ==> scaled(digits, p) == kept + 1
            &&& digits[p] < '5' ==> scaled(digits, p) == kept
        }),
{
}

} // verus!
