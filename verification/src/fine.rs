//! Quantities counted in quintillionths, for numbers that are compared more
//! closely than a billionth: the hop of a frame grid, and the times that a
//! master's streams and packets report.
use crate::number::{clamp, clamped, nearest, trimmed, Real};
use crate::parse::{numeral, read_numeral, scale_to, scaled, Numeral, NumeralView};
use crate::text::{chars_of, dec, padded, push_dec, push_padded};
use vstd::prelude::*;
use vstd::string::StringExecFns;

verus! {

/// Quintillionths in one.
pub const ATTO: i128 = 1_000_000_000_000_000_000;

/// Quintillionths in a billionth.
pub const ATTO_PER_NANO: i128 = 1_000_000_000;

/// The largest size told apart: every larger one counts as this.
pub const MAX_ATTO: i128 = 10_000_000_000_000_000_000_000_000_000_000_000_000;

/// A real quantity: a whole number of quintillionths, or one of the values
/// that are no number.
#[derive(Clone, Copy, Debug, PartialEq, Eq, Structural)]
pub enum Fine {
    Atto(i128),
    NaN,
    Infinity,
    NegInfinity,
}

/// The nearest integer of a size that is told apart.
pub open spec fn held(n: int) -> int {
    if n > MAX_ATTO {
        MAX_ATTO as int
    } else if n < -MAX_ATTO {
        -MAX_ATTO
    } else {
        n
    }
}

fn hold(n: i128) -> (r: i128)
    ensures
        r == held(n as int),
{
    if n > MAX_ATTO {
        MAX_ATTO
    } else if n < -MAX_ATTO {
        -MAX_ATTO
    } else {
        n
    }
}

// ------------------------------------------------------------------ arithmetic

/// A quantity with the other sign.
pub open spec fn opposite(r: Fine) -> Fine {
    match r {
        Fine::Atto(n) => Fine::Atto(held(-n) as i128),
        Fine::NaN => Fine::NaN,
        Fine::Infinity => Fine::NegInfinity,
        Fine::NegInfinity => Fine::Infinity,
    }
}

/// A quantity without its sign.
pub open spec fn absolute(r: Fine) -> Fine {
    match r {
        Fine::Atto(n) => if n < 0 {
            opposite(r)
        } else {
            r
        },
        Fine::NegInfinity => Fine::Infinity,
        _ => r,
    }
}

/// The larger of two quantities; one that is not a number does not count.
pub open spec fn larger(a: Fine, b: Fine) -> Fine {
    match (a, b) {
        (Fine::Atto(x), Fine::Atto(y)) => if y > x {
            b
        } else {
            a
        },
        (Fine::NaN, _) => b,
        (_, Fine::NaN) => a,
        (Fine::Infinity, _) => a,
        (_, Fine::Infinity) => b,
        (Fine::NegInfinity, _) => b,
        (_, Fine::NegInfinity) => a,
    }
}

/// The difference of two quantities, with the special values carried as in
/// floating-point arithmetic.
pub open spec fn less(a: Fine, b: Fine) -> Fine {
    match (a, b) {
        (Fine::Atto(x), Fine::Atto(y)) => Fine::Atto(held(x - y) as i128),
        (Fine::NaN, _) => Fine::NaN,
        (_, Fine::NaN) => Fine::NaN,
        (Fine::Infinity, Fine::Infinity) => Fine::NaN,
        (Fine::NegInfinity, Fine::NegInfinity) => Fine::NaN,
        (Fine::Infinity, _) => Fine::Infinity,
        (Fine::NegInfinity, _) => Fine::NegInfinity,
        (_, Fine::Infinity) => Fine::NegInfinity,
        (_, Fine::NegInfinity) => Fine::Infinity,
    }
}

/// The sum of two quantities.
pub open spec fn sum(a: Fine, b: Fine) -> Fine {
    less(a, opposite(b))
}

/// A quantity to the nearest billionth.
pub open spec fn coarse(r: Fine) -> Real {
    match r {
        Fine::Atto(n) => {
            let size = (magnitude(n as int) + 500_000_000) / 1_000_000_000;
            Real::Nano(
                clamped(
                    if n < 0 {
                        -size
                    } else {
                        size as int
                    },
                ) as i64,
            )
        },
        Fine::NaN => Real::NaN,
        Fine::Infinity => Real::Infinity,
        Fine::NegInfinity => Real::NegInfinity,
    }
}

/// Whether a quantity is a number above zero.
pub open spec fn above_zero(r: Fine) -> bool {
    r is Atto && r->Atto_0 > 0
}

/// Whether a quantity is above a number of quintillionths.
pub open spec fn exceeding(a: Fine, n: int) -> bool {
    match a {
        Fine::Atto(x) => x > n,
        Fine::Infinity => true,
        _ => false,
    }
}

impl Fine {
    /// The quantity with the other sign.
    pub fn negate(self) -> (r: Fine)
        ensures
            r == opposite(self),
    {
        match self {
            Fine::Atto(n) => Fine::Atto(
                if n < -MAX_ATTO {
                    MAX_ATTO
                } else {
                    hold(-n)
                },
            ),
            Fine::NaN => Fine::NaN,
            Fine::Infinity => Fine::NegInfinity,
            Fine::NegInfinity => Fine::Infinity,
        }
    }

    /// The quantity without its sign.
    pub fn abs(self) -> (r: Fine)
        ensures
            r == absolute(self),
    {
        match self {
            Fine::Atto(n) => if n < 0 {
                self.negate()
            } else {
                self
            },
            Fine::NegInfinity => Fine::Infinity,
            _ => self,
        }
    }

    /// The larger of the two.
    pub fn larger_of(self, other: Fine) -> (r: Fine)
        ensures
            r == larger(self, other),
    {
        match (self, other) {
            (Fine::Atto(x), Fine::Atto(y)) => if y > x {
                other
            } else {
                self
            },
            (Fine::NaN, _) => other,
            (_, Fine::NaN) => self,
            (Fine::Infinity, _) => self,
            (_, Fine::Infinity) => other,
            (Fine::NegInfinity, _) => other,
            (_, Fine::NegInfinity) => self,
        }
    }

    /// `self` less `other`.
    pub fn minus(self, other: Fine) -> (r: Fine)
        ensures
            r == less(self, other),
    {
        match (self, other) {
            (Fine::Atto(x), Fine::Atto(y)) => Fine::Atto(
                match x.checked_sub(y) {
                    Some(d) => hold(d),
                    None => if y < 0 {
                        MAX_ATTO
                    } else {
                        -MAX_ATTO
                    },
                },
            ),
            (Fine::NaN, _) => Fine::NaN,
            (_, Fine::NaN) => Fine::NaN,
            (Fine::Infinity, Fine::Infinity) => Fine::NaN,
            (Fine::NegInfinity, Fine::NegInfinity) => Fine::NaN,
            (Fine::Infinity, _) => Fine::Infinity,
            (Fine::NegInfinity, _) => Fine::NegInfinity,
            (_, Fine::Infinity) => Fine::NegInfinity,
            (_, Fine::NegInfinity) => Fine::Infinity,
        }
    }

    /// `self` and `other`.
    pub fn plus(self, other: Fine) -> (r: Fine)
        ensures
            r == sum(self, other),
    {
        self.minus(other.negate())
    }

    /// The quantity to the nearest billionth.
    pub fn to_real(self) -> (r: Real)
        ensures
            r == coarse(self),
    {
        match self {
            Fine::Atto(n) => {
                let size: i128 = ((size_of(n) + 500_000_000) / 1_000_000_000) as i128;
                Real::Nano(
                    clamp(
                        if n < 0 {
                            -size
                        } else {
                            size
                        },
                    ),
                )
            },
            Fine::NaN => Real::NaN,
            Fine::Infinity => Real::Infinity,
            Fine::NegInfinity => Real::NegInfinity,
        }
    }

    /// Whether the quantity is above `n` quintillionths.
    pub fn is_above(self, n: i128) -> (r: bool)
        ensures
            r == exceeding(self, n as int),
    {
        match self {
            Fine::Atto(x) => x > n,
            Fine::Infinity => true,
            _ => false,
        }
    }
}

// ------------------------------------------------------------------------ text

/// A whole number without its sign.
pub open spec fn magnitude(n: int) -> nat {
    if n < 0 {
        (-n) as nat
    } else {
        n as nat
    }
}

fn size_of(n: i128) -> (size: u128)
    ensures
        size == magnitude(n as int),
{
    if n < 0 {
        (-(n + 1)) as u128 + 1
    } else {
        n as u128
    }
}

/// A minus sign before a negative number.
pub open spec fn sign_of(n: int) -> Seq<char> {
    if n < 0 {
        seq!['-']
    } else {
        Seq::empty()
    }
}

/// The shortest decimal text of a quantity: `2`, `0.0625`, `-1.5`.
pub open spec fn fine_text(r: Fine) -> Seq<char> {
    match r {
        Fine::Atto(n) => {
            let whole = sign_of(n as int) + dec(magnitude(n as int) / ATTO as nat);
            let fraction = trimmed(magnitude(n as int) % ATTO as nat, 18);
            if fraction.len() == 0 {
                whole
            } else {
                whole + "."@ + fraction
            }
        },
        Fine::NaN => "NaN"@,
        Fine::Infinity => "inf"@,
        Fine::NegInfinity => "-inf"@,
    }
}

/// Digits without their trailing zeros.
pub open spec fn without_zeros(digits: Seq<char>) -> Seq<char>
    decreases digits.len(),
{
    if digits.len() > 0 && digits.last() == '0' {
        without_zeros(digits.drop_last())
    } else {
        digits
    }
}

/// The scientific text of `n` quintillionths: `1e-6`, `2.5e+16`.
pub open spec fn scientific(n: nat) -> Seq<char> {
    let digits = dec(n);
    let rest = without_zeros(digits.drop_first());
    let exponent = digits.len() - 19;
    digits.take(1) + (if rest.len() == 0 {
        Seq::empty()
    } else {
        "."@ + rest
    }) + (if exponent < 0 {
        "e-"@
    } else {
        "e+"@
    }) + dec(magnitude(exponent))
}

/// A quantity as a JSON number, null where it is none: always with a fraction
/// or an exponent, the latter below a hundred-thousandth and from ten
/// quadrillion on.
pub open spec fn fine_json(r: Fine) -> Seq<char> {
    match r {
        Fine::Atto(n) => {
            let size = magnitude(n as int);
            let fraction = trimmed(size % ATTO as nat, 18);
            sign_of(n as int) + if size != 0 && (size < 10_000_000_000_000 || size
                >= 10_000_000_000_000_000_000_000_000_000_000_000) {
                scientific(size)
            } else {
                dec(size / ATTO as nat) + "."@ + if fraction.len() == 0 {
                    "0"@
                } else {
                    fraction
                }
            }
        },
        _ => "null"@,
    }
}

/// A time in milliseconds, with one decimal.
pub open spec fn millis_text(r: Fine) -> Seq<char> {
    match r {
        Fine::Atto(n) => {
            let tenths = nearest(magnitude(n as int), 100_000_000_000_000);
            sign_of(n as int) + dec(tenths / 10) + "."@ + padded(tenths % 10, 1)
        },
        _ => fine_text(r),
    }
}

fn push_scientific(out: &mut String, n: u128)
    requires
        n > 0,
    ensures
        final(out)@ == old(out)@ + scientific(n as nat),
{
    let mut text: String = String::new();
    push_dec(&mut text, n);
    let digits: Vec<char> = chars_of(text.as_str());
    assert(digits@ =~= dec(n as nat));
    proof {
        lemma_dec_is_not_empty(n as nat);
    }
    let ghost rest = digits@.drop_first();
    let mut end: usize = digits.len();
    assert(digits@.subrange(1, end as int) =~= rest);
    while end > 1 && digits[end - 1] == '0'
        invariant
            1 <= end <= digits@.len(),
            without_zeros(rest) == without_zeros(digits@.subrange(1, end as int)),
        decreases end,
    {
        assert(digits@.subrange(1, end as int).drop_last() =~= digits@.subrange(1, end - 1));
        assert(digits@.subrange(1, end as int).last() == digits@[end - 1]);
        end = end - 1;
    }
    let ghost kept = digits@.subrange(1, end as int);
    assert(without_zeros(kept) == kept) by {
        if kept.len() > 0 {
            assert(kept.last() == digits@[end - 1]);
        }
    }
    let ghost base = out@;
    out.push(digits[0]);
    if end > 1 {
        out.append(".");
    }
    let ghost head = out@;
    let mut i: usize = 1;
    while i < end
        invariant
            1 <= i <= end <= digits@.len(),
            out@ == head + digits@.subrange(1, i as int),
        decreases end - i,
    {
        out.push(digits[i]);
        assert(digits@.subrange(1, i + 1) =~= digits@.subrange(1, i as int).push(digits@[i as int]));
        i = i + 1;
    }
    if digits.len() < 19 {
        out.append("e-");
        push_dec(out, (19 - digits.len()) as u128);
    } else {
        out.append("e+");
        push_dec(out, (digits.len() - 19) as u128);
    }
    assert(digits@.take(1) =~= seq![digits@[0]]);
    assert(out@ =~= base + scientific(n as nat));
}

proof fn lemma_dec_is_not_empty(n: nat)
    ensures
        dec(n).len() > 0,
{
}

impl Fine {
    /// The quantity's decimal text.
    pub fn text(&self) -> (s: String)
        ensures
            s@ == fine_text(*self),
    {
        match self {
            Fine::Atto(n) => {
                let mut s: String = String::new();
                if *n < 0 {
                    s.push('-');
                }
                let size: u128 = size_of(*n);
                push_dec(&mut s, size / ATTO as u128);
                let mut fraction: String = String::new();
                let any: bool = crate::number::push_trimmed(
                    &mut fraction,
                    size % ATTO as u128,
                    18,
                );
                assert(fraction@ =~= trimmed(size as nat % ATTO as nat, 18));
                if any {
                    s.append(".");
                    s.append(fraction.as_str());
                }
                assert(s@ =~= fine_text(*self));
                s
            },
            Fine::NaN => "NaN".to_owned(),
            Fine::Infinity => "inf".to_owned(),
            Fine::NegInfinity => "-inf".to_owned(),
        }
    }

    /// Appends the quantity as a JSON number.
    pub fn push_json(&self, out: &mut String)
        ensures
            final(out)@ == old(out)@ + fine_json(*self),
    {
        match self {
            Fine::Atto(n) => {
                if *n < 0 {
                    out.push('-');
                }
                let size: u128 = size_of(*n);
                if size != 0 && (size < 10_000_000_000_000 || size
                    >= 10_000_000_000_000_000_000_000_000_000_000_000) {
                    push_scientific(out, size);
                } else {
                    push_dec(out, size / ATTO as u128);
                    out.append(".");
                    let mut fraction: String = String::new();
                    let any: bool = crate::number::push_trimmed(
                        &mut fraction,
                        size % ATTO as u128,
                        18,
                    );
                    assert(fraction@ =~= trimmed(size as nat % ATTO as nat, 18));
                    if any {
                        out.append(fraction.as_str());
                    } else {
                        out.append("0");
                    }
                }
                assert(out@ =~= old(out)@ + fine_json(*self));
            },
            _ => out.append("null"),
        }
    }

    /// The time in milliseconds, with one decimal.
    pub fn millis(&self) -> (s: String)
        ensures
            s@ == millis_text(*self),
    {
        match self {
            Fine::Atto(n) => {
                let mut s: String = String::new();
                if *n < 0 {
                    s.push('-');
                }
                let size: u128 = size_of(*n);
                let q: u128 = size / 100_000_000_000_000;
                let r: u128 = size % 100_000_000_000_000;
                let tenths: u128 = if 2 * r < 100_000_000_000_000 || (2 * r == 100_000_000_000_000
                    && q % 2 == 0) {
                    q
                } else {
                    q + 1
                };
                push_dec(&mut s, tenths / 10);
                s.append(".");
                push_padded(&mut s, tenths % 10, 1);
                assert(s@ =~= millis_text(*self));
                s
            },
            _ => self.text(),
        }
    }
}

// --------------------------------------------------------------------- reading

/// The quantity of a decimal numeral, in quintillionths to the nearest; none
/// where the text is no numeral.
pub open spec fn parsed_fine(s: Seq<char>) -> Option<Fine> {
    match numeral(s) {
        None => None,
        Some(NumeralView::Decimal { negative, digits, point }) => {
            let size = held(scaled(digits, point + 18));
            Some(
                Fine::Atto(
                    if negative {
                        -size
                    } else {
                        size
                    } as i128,
                ),
            )
        },
        Some(NumeralView::NaN) => Some(Fine::NaN),
        Some(NumeralView::Infinite { negative }) => Some(
            if negative {
                Fine::NegInfinity
            } else {
                Fine::Infinity
            },
        ),
    }
}

/// Reads a decimal numeral.
pub fn parse_fine(text: &str) -> (r: Option<Fine>)
    ensures
        r == parsed_fine(text@),
{
    match read_numeral(text) {
        None => None,
        Some(Numeral::NaN) => Some(Fine::NaN),
        Some(Numeral::Infinite { negative }) => Some(
            if negative {
                Fine::NegInfinity
            } else {
                Fine::Infinity
            },
        ),
        Some(Numeral::Decimal { negative, digits, point }) => {
            let n: u128 = scale_to(&digits, point + 18, MAX_ATTO as u128);
            let size: i128 = hold(n as i128);
            Some(
                Fine::Atto(
                    if negative {
                        -size
                    } else {
                        size
                    },
                ),
            )
        },
    }
}

// ---------------------------------------------------------------------- laws

/// What is written of a fine quantity is read back, to the quintillionth.
pub proof fn law_fine_quantities_read_back(n: i128)
    requires
        -MAX_ATTO <= n <= MAX_ATTO,
    ensures
        parsed_fine(fine_text(Fine::Atto(n))) == Some(Fine::Atto(n)),
{
    let size = magnitude(n as int);
    let unit: nat = 1_000_000_000_000_000_000;
    assert(crate::parse::ten_to(18) == unit) by {
        reveal_with_fuel(crate::parse::ten_to, 19);
    }
    crate::parse::lemma_decimal_reads_back(size, 18, unit);
    let whole = dec(size / unit);
    let f = trimmed(size % unit, 18);
    reveal_strlit("-");
    reveal_strlit("");
    reveal_strlit(".");
    let t = if f.len() == 0 {
        whole
    } else {
        whole + "."@ + f
    };
    if f.len() == 0 {
        crate::parse::law_whole_numerals_are_read(size / unit);
        assert(whole + f =~= whole);
    } else {
        crate::parse::law_decimals_are_read(size / unit, f);
    }
    if n < 0 {
        assert(fine_text(Fine::Atto(n)) =~= "-"@ + t);
    } else {
        assert(fine_text(Fine::Atto(n)) =~= t);
    }
}

/// Sums and differences are exact where they are held, sizes drop the sign, and the
/// larger of two is one of them and no less than the other.
pub proof fn law_fine_arithmetic(a: i128, b: i128)
    requires
        -1_000_000_000_000_000_000_000_000_000_000_000_000 <= a
            <= 1_000_000_000_000_000_000_000_000_000_000_000_000,
        -1_000_000_000_000_000_000_000_000_000_000_000_000 <= b
            <= 1_000_000_000_000_000_000_000_000_000_000_000_000,
    ensures
        less(Fine::Atto(a), Fine::Atto(b)) == Fine::Atto((a - b) as i128),
        sum(Fine::Atto(a), Fine::Atto(b)) == Fine::Atto((a + b) as i128),
        a < 0 ==> absolute(Fine::Atto(a)) == Fine::Atto((-a) as i128),
        a >= 0 ==> absolute(Fine::Atto(a)) == Fine::Atto(a),
        a >= b ==> larger(Fine::Atto(a), Fine::Atto(b)) == Fine::Atto(a),
        a <= b ==> larger(Fine::Atto(a), Fine::Atto(b)) == Fine::Atto(b),
        exceeding(Fine::Atto(a), b as int) <==> a > b,
        above_zero(Fine::Atto(a)) <==> a > 0,
{
}

/// A fine quantity is at most half a billionth from what it is rounded to.
pub proof fn law_rounding_is_within_half(n: i128)
    requires
        -9_000_000_000_000_000_000_000_000_000 <= n <= 9_000_000_000_000_000_000_000_000_000,
    ensures
        coarse(Fine::Atto(n)) matches Real::Nano(r) && -500_000_000 <= n - r * 1_000_000_000
            <= 500_000_000,
{
}

/// A fine quantity is told in milliseconds with one decimal, to the nearest tenth.
pub proof fn law_millis_are_told_to_the_tenth(n: i128) -> (tenths: nat)
    requires
        n >= 0,
    ensures
        millis_text(Fine::Atto(n)) == dec(tenths / 10) + "."@ + padded(tenths % 10, 1),
        -50_000_000_000_000 <= tenths * 100_000_000_000_000 - n <= 50_000_000_000_000,
{
    let tenths = nearest(magnitude(n as int), 100_000_000_000_000);
    crate::number::law_nearest_is_within_half(magnitude(n as int), 100_000_000_000_000);
    reveal_strlit("");
    assert(millis_text(Fine::Atto(n)) =~= dec(tenths / 10) + "."@ + padded(tenths % 10, 1));
    tenths
}

} // verus!
