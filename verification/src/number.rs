//! Numbers: real quantities counted in billionths, frame rates as ratios, and
//! their decimal text.
//!
//! Times are whole nanoseconds, so sums and differences of times are exact.
use crate::text::{dec, padded, push_dec, push_padded};
use vstd::prelude::*;
use vstd::string::StringExecFns;

verus! {

/// Billionths in one.
pub const NANO: i64 = 1_000_000_000;

/// A real quantity as an edit or a manifest gives it: a whole number of
/// billionths (nanoseconds, for a time in seconds), or one of the values that
/// are no number.
#[derive(Clone, Copy, Debug, PartialEq, Eq, Structural)]
pub enum Real {
    Nano(i64),
    NaN,
    Infinity,
    NegInfinity,
}

/// A fraction's digits without its trailing zeros.
pub open spec fn trimmed(n: nat, width: nat) -> Seq<char>
    decreases width,
{
    if width == 0 {
        Seq::empty()
    } else if n % 10 == 0 {
        trimmed(n / 10, (width - 1) as nat)
    } else {
        padded(n, width)
    }
}

/// The shortest decimal text of `n` billionths: `2`, `0.06`, `1.001`.
pub open spec fn decimal(n: nat) -> Seq<char> {
    let whole = dec(n / 1_000_000_000);
    let fraction = trimmed(n % 1_000_000_000, 9);
    if fraction.len() == 0 {
        whole
    } else {
        whole.push('.') + fraction
    }
}

/// The text of a quantity.
pub open spec fn real_text(r: Real) -> Seq<char> {
    match r {
        Real::Nano(n) => if n < 0 {
            seq!['-'] + decimal((-n) as nat)
        } else {
            decimal(n as nat)
        },
        Real::NaN => "NaN"@,
        Real::Infinity => "inf"@,
        Real::NegInfinity => "-inf"@,
    }
}

pub(crate) fn push_trimmed(out: &mut String, n: u128, width: usize) -> (any: bool)
    ensures
        final(out)@ == old(out)@ + trimmed(n as nat, width as nat),
        any == (trimmed(n as nat, width as nat).len() > 0),
    decreases width,
{
    if width == 0 {
        assert(out@ =~= old(out)@ + trimmed(n as nat, 0));
        false
    } else if n % 10 == 0 {
        push_trimmed(out, n / 10, width - 1)
    } else {
        push_padded(out, n, width);
        true
    }
}

fn push_decimal(out: &mut String, n: u128)
    ensures
        final(out)@ == old(out)@ + decimal(n as nat),
{
    push_dec(out, n / 1_000_000_000);
    let mut fraction: String = String::new();
    let any: bool = push_trimmed(&mut fraction, n % 1_000_000_000, 9);
    assert(fraction@ =~= trimmed(n as nat % 1_000_000_000, 9));
    if any {
        out.push('.');
        out.append(fraction.as_str());
        assert(out@ =~= old(out)@ + decimal(n as nat));
    }
}

/// The text of `n` nanoseconds in seconds, always with a fraction: `2.0`,
/// `-0.25`.
pub open spec fn seconds_text(n: int) -> Seq<char> {
    let size: nat = if n < 0 {
        (-n) as nat
    } else {
        n as nat
    };
    let fraction = trimmed(size % 1_000_000_000, 9);
    (if n < 0 {
        "-"@
    } else {
        ""@
    }) + dec(size / 1_000_000_000) + "."@ + (if fraction.len() == 0 {
        "0"@
    } else {
        fraction
    })
}

/// Appends the text of `n` nanoseconds in seconds.
pub fn push_seconds(out: &mut String, n: i128)
    ensures
        final(out)@ == old(out)@ + seconds_text(n as int),
{
    let size: u128 = if n < 0 {
        (-(n + 1)) as u128 + 1
    } else {
        n as u128
    };
    assert(""@ =~= Seq::<char>::empty()) by {
        reveal_strlit("");
    }
    if n < 0 {
        out.append("-");
    }
    push_dec(out, size / 1_000_000_000);
    out.append(".");
    let mut fraction: String = String::new();
    let any: bool = push_trimmed(&mut fraction, size % 1_000_000_000, 9);
    assert(fraction@ =~= trimmed(size as nat % 1_000_000_000, 9));
    if any {
        out.append(fraction.as_str());
    } else {
        out.append("0");
    }
    assert(out@ =~= old(out)@ + seconds_text(n as int));
}

impl Real {
    /// A whole number of nanoseconds, and no special value.
    pub open spec fn finite(self) -> bool {
        self is Nano
    }

    /// The count of billionths of a finite quantity.
    pub open spec fn nanos(self) -> int {
        self->Nano_0 as int
    }

    /// The quantity's decimal text.
    pub fn text(&self) -> (s: String)
        ensures
            s@ == real_text(*self),
    {
        match self {
            Real::Nano(n) => {
                let mut s: String = String::new();
                if *n < 0 {
                    s.push('-');
                    push_decimal(&mut s, (-(*n as i128)) as u128);
                    assert(s@ =~= real_text(*self));
                } else {
                    push_decimal(&mut s, *n as u128);
                    assert(s@ =~= real_text(*self));
                }
                s
            },
            Real::NaN => "NaN".to_owned(),
            Real::Infinity => "inf".to_owned(),
            Real::NegInfinity => "-inf".to_owned(),
        }
    }
}

/// The nearest `i64` to an integer.
pub open spec fn clamped(n: int) -> int {
    if n > i64::MAX {
        i64::MAX as int
    } else if n < i64::MIN {
        i64::MIN as int
    } else {
        n
    }
}

/// The nearest `i64` to `n`.
pub fn clamp(n: i128) -> (r: i64)
    ensures
        r == clamped(n as int),
{
    if n > i64::MAX as i128 {
        i64::MAX
    } else if n < i64::MIN as i128 {
        i64::MIN
    } else {
        n as i64
    }
}

/// The difference of two quantities, with the special values carried as in
/// floating-point arithmetic.
pub open spec fn difference(a: Real, b: Real) -> Real {
    match (a, b) {
        (Real::Nano(x), Real::Nano(y)) => Real::Nano(clamped(x - y) as i64),
        (Real::NaN, _) => Real::NaN,
        (_, Real::NaN) => Real::NaN,
        (Real::Infinity, Real::Infinity) => Real::NaN,
        (Real::NegInfinity, Real::NegInfinity) => Real::NaN,
        (Real::Infinity, _) => Real::Infinity,
        (Real::NegInfinity, _) => Real::NegInfinity,
        (_, Real::Infinity) => Real::NegInfinity,
        (_, Real::NegInfinity) => Real::Infinity,
    }
}

/// A quantity and a number of billionths.
pub open spec fn shifted(a: Real, d: int) -> Real {
    match a {
        Real::Nano(x) => Real::Nano(clamped(x + d) as i64),
        _ => a,
    }
}

/// Whether a quantity is below a number of billionths.
pub open spec fn below(a: Real, n: int) -> bool {
    match a {
        Real::Nano(x) => x < n,
        Real::NegInfinity => true,
        _ => false,
    }
}

/// Whether a quantity is above a number of billionths.
pub open spec fn above(a: Real, n: int) -> bool {
    match a {
        Real::Nano(x) => x > n,
        Real::Infinity => true,
        _ => false,
    }
}

impl Real {
    /// The quantity moved by `d` billionths.
    pub fn shift(self, d: i64) -> (r: Real)
        ensures
            r == shifted(self, d as int),
    {
        match self {
            Real::Nano(x) => Real::Nano(clamp(x as i128 + d as i128)),
            _ => self,
        }
    }

    /// Whether the quantity is below `n` billionths.
    pub fn is_below(self, n: i128) -> (r: bool)
        ensures
            r == below(self, n as int),
    {
        match self {
            Real::Nano(x) => (x as i128) < n,
            Real::NegInfinity => true,
            _ => false,
        }
    }

    /// Whether the quantity is above `n` billionths.
    pub fn is_above(self, n: i128) -> (r: bool)
        ensures
            r == above(self, n as int),
    {
        match self {
            Real::Nano(x) => x as i128 > n,
            Real::Infinity => true,
            _ => false,
        }
    }

    /// `self` less `other`.
    pub fn minus(self, other: Real) -> (r: Real)
        ensures
            r == difference(self, other),
    {
        match (self, other) {
            (Real::Nano(x), Real::Nano(y)) => Real::Nano(clamp(x as i128 - y as i128)),
            (Real::NaN, _) => Real::NaN,
            (_, Real::NaN) => Real::NaN,
            (Real::Infinity, Real::Infinity) => Real::NaN,
            (Real::NegInfinity, Real::NegInfinity) => Real::NaN,
            (Real::Infinity, _) => Real::Infinity,
            (Real::NegInfinity, _) => Real::NegInfinity,
            (_, Real::Infinity) => Real::NegInfinity,
            (_, Real::NegInfinity) => Real::Infinity,
        }
    }
}

/// A frame rate: a ratio of two positive numbers, in frames per second.
#[derive(Clone, Copy, Debug, PartialEq, Eq, Structural)]
pub struct Rate {
    num: u32,
    den: u32,
}

/// A rate with six decimals.
pub open spec fn rate_text(rate: Rate) -> Seq<char> {
    six_decimals(rate.num() as nat, rate.den() as nat)
}

impl Rate {
    /// The ratio's upper term.
    pub closed spec fn num(self) -> int {
        self.num as int
    }

    /// The ratio's lower term.
    pub closed spec fn den(self) -> int {
        self.den as int
    }

    /// Both terms are positive.
    pub open spec fn positive(self) -> bool {
        self.num() > 0 && self.den() > 0
    }

    /// The terms are 32-bit numbers.
    pub proof fn lemma_terms(self)
        ensures
            0 <= self.num() <= u32::MAX,
            0 <= self.den() <= u32::MAX,
    {
    }

    #[verifier::type_invariant]
    spec fn inv(self) -> bool {
        self.num > 0 && self.den > 0
    }

    /// The rate `num / den`, where both are positive.
    pub closed spec fn spec_new(num: u32, den: u32) -> Option<Rate> {
        if num > 0 && den > 0 {
            Some(Rate { num, den })
        } else {
            None
        }
    }

    /// The rate `num / den`, where both are positive.
    pub fn new(num: u32, den: u32) -> (r: Option<Rate>)
        ensures
            r is Some == (num > 0 && den > 0),
            r is Some ==> r->0.num() == num && r->0.den() == den,
            r == Rate::spec_new(num, den),
    {
        if num > 0 && den > 0 {
            Some(Rate { num, den })
        } else {
            None
        }
    }

    /// The two terms.
    pub fn terms(self) -> (r: (u32, u32))
        ensures
            r.0 == self.num(),
            r.1 == self.den(),
            self.positive(),
    {
        proof {
            use_type_invariant(&self);
        }
        (self.num, self.den)
    }

    /// The rate with six decimals.
    pub fn text(self) -> (s: String)
        ensures
            s@ == rate_text(self),
    {
        let (num, den): (u32, u32) = self.terms();
        fmt_ratio(num as u128, den as u128)
    }
}

/// A frame rate as it is asked for: a positive one, or any other number that a
/// text can give.
#[derive(Clone, Copy, Debug, PartialEq, Eq, Structural)]
pub enum Fps {
    Rate(Rate),
    /// The rate with a minus sign.
    Minus(Rate),
    Zero { negative: bool },
    NaN,
    Infinity,
    NegInfinity,
}

/// A minus sign, or nothing.
pub open spec fn sign_text(negative: bool) -> Seq<char> {
    if negative {
        "-"@
    } else {
        ""@
    }
}

/// A frame rate with six decimals.
pub open spec fn fps_text(fps: Fps) -> Seq<char> {
    match fps {
        Fps::Rate(rate) => rate_text(rate),
        Fps::Minus(rate) => "-"@ + rate_text(rate),
        Fps::Zero { negative } => sign_text(negative) + "0.000000"@,
        Fps::NaN => "NaN"@,
        Fps::Infinity => "inf"@,
        Fps::NegInfinity => "-inf"@,
    }
}

impl Fps {
    /// The rate with six decimals.
    pub fn text(self) -> (s: String)
        ensures
            s@ == fps_text(self),
    {
        match self {
            Fps::Rate(rate) => rate.text(),
            Fps::Minus(rate) => {
                let mut s: String = "-".to_owned();
                s.append(rate.text().as_str());
                s
            },
            Fps::Zero { negative } => {
                let mut s: String = if negative {
                    "-".to_owned()
                } else {
                    "".to_owned()
                };
                s.append("0.000000");
                s
            },
            Fps::NaN => "NaN".to_owned(),
            Fps::Infinity => "inf".to_owned(),
            Fps::NegInfinity => "-inf".to_owned(),
        }
    }
}

/// The integer nearest to `num / den`, the even one of two equally near.
pub open spec fn nearest(num: nat, den: nat) -> nat {
    let q = num / den;
    let r = num % den;
    if 2 * r < den || (2 * r == den && q % 2 == 0) {
        q
    } else {
        q + 1
    }
}

/// `num / den` with six decimals.
pub open spec fn six_decimals(num: nat, den: nat) -> Seq<char> {
    let micros = nearest(num * 1_000_000, den);
    dec(micros / 1_000_000).push('.') + padded(micros % 1_000_000, 6)
}

/// `num / den` in fixed notation with six decimals.
pub fn fmt_ratio(num: u128, den: u128) -> (s: String)
    requires
        num < 0x1_0000_0000_0000_0000_0000_0000,
        0 < den < 0x1_0000_0000_0000_0000_0000_0000,
    ensures
        s@ == six_decimals(num as nat, den as nat),
{
    let scaled: u128 = num * 1_000_000;
    let q: u128 = scaled / den;
    let r: u128 = scaled % den;
    proof {
        assert(q <= scaled) by (nonlinear_arith)
            requires
                q == scaled / den,
                den > 0,
                scaled >= 0,
        ;
    }
    let micros: u128 = if 2 * r < den || (2 * r == den && q % 2 == 0) {
        q
    } else {
        q + 1
    };
    let mut s: String = String::new();
    push_dec(&mut s, micros / 1_000_000);
    s.push('.');
    push_padded(&mut s, micros % 1_000_000, 6);
    assert(s@ =~= six_decimals(num as nat, den as nat));
    s
}

/// `n` billionths in fixed notation with `places` decimals, `scale` being the
/// power of ten that has so many zeros.
pub open spec fn fixed(n: int, scale: nat, places: nat) -> Seq<char> {
    let size = if n < 0 {
        -n
    } else {
        n
    };
    let units = nearest((size * scale) as nat, 1_000_000_000);
    (if n < 0 {
        seq!['-']
    } else {
        Seq::empty()
    }) + dec(units / scale).push('.') + padded(units % scale, places)
}

fn fmt_fixed(n: i128, scale: u32, places: usize) -> (s: String)
    requires
        0 < scale <= 10_000,
    ensures
        s@ == fixed(n as int, scale as nat, places as nat),
{
    let mut s: String = String::new();
    let size: u128 = if n < 0 {
        s.push('-');
        (-(n + 1)) as u128 + 1
    } else {
        n as u128
    };
    let ghost sign = s@;
    let whole: u128 = size / 1_000_000_000;
    let rest: u128 = size % 1_000_000_000;
    proof {
        assert(0 <= whole * scale <= 0x4_0000_0000_0000_0000_0000_0000int * 10_000)
            by (nonlinear_arith)
            requires
                0 <= whole <= 0x4_0000_0000_0000_0000_0000_0000int,
                0 <= scale <= 10_000,
        ;
        assert(0 <= rest * scale <= 1_000_000_000 * 10_000) by (nonlinear_arith)
            requires
                0 <= rest < 1_000_000_000,
                0 <= scale <= 10_000,
        ;
    }
    let part: u128 = rest * scale as u128;
    let q: u128 = whole * scale as u128 + part / 1_000_000_000;
    let r: u128 = part % 1_000_000_000;
    proof {
        assert(size * scale == q * 1_000_000_000 + r) by (nonlinear_arith)
            requires
                size == whole * 1_000_000_000 + rest,
                part == rest * scale,
                q == whole * scale + part / 1_000_000_000,
                r == part % 1_000_000_000,
        ;
        vstd::arithmetic::div_mod::lemma_fundamental_div_mod_converse(
            (size * scale) as int,
            1_000_000_000,
            q as int,
            r as int,
        );
    }
    let units: u128 = if 2 * r < 1_000_000_000 || (2 * r == 1_000_000_000 && q % 2 == 0) {
        q
    } else {
        q + 1
    };
    push_dec(&mut s, units / scale as u128);
    s.push('.');
    push_padded(&mut s, units % scale as u128, places);
    assert(sign =~= if n < 0 { seq!['-'] } else { Seq::empty() });
    assert(s@ =~= fixed(n as int, scale as nat, places as nat));
    s
}

/// Four decimals.
pub open spec fn four_decimals(n: int) -> Seq<char> {
    fixed(n, 10_000, 4)
}

/// Two decimals.
pub open spec fn two_decimals(n: int) -> Seq<char> {
    fixed(n, 100, 2)
}

/// Three decimals.
pub open spec fn three_decimals(n: int) -> Seq<char> {
    fixed(n, 1_000, 3)
}

/// `n` billionths in fixed notation with three decimals.
pub fn fmt_three(n: i128) -> (s: String)
    ensures
        s@ == three_decimals(n as int),
{
    fmt_fixed(n, 1_000, 3)
}

/// `n` billionths in fixed notation with four decimals.
pub fn fmt_four(n: i64) -> (s: String)
    ensures
        s@ == four_decimals(n as int),
{
    fmt_fixed(n as i128, 10_000, 4)
}

/// `n` billionths in fixed notation with two decimals.
pub fn fmt_two(n: i128) -> (s: String)
    ensures
        s@ == two_decimals(n as int),
{
    fmt_fixed(n, 100, 2)
}

/// A time with six decimals, in seconds.
pub open spec fn time_text(ns: int) -> Seq<char> {
    if ns < 0 {
        "-"@ + six_decimals((-ns) as nat, 1_000_000_000)
    } else {
        six_decimals(ns as nat, 1_000_000_000)
    }
}

/// A time in seconds, in fixed notation with six decimals.
pub fn fmt_time(ns: i128) -> (s: String)
    requires
        -0x1_0000_0000_0000_0000 <= ns <= 0x1_0000_0000_0000_0000,
    ensures
        s@ == time_text(ns as int),
{
    if ns < 0 {
        let mut s: String = "-".to_owned();
        s.append(fmt_ratio((-ns) as u128, 1_000_000_000).as_str());
        s
    } else {
        fmt_ratio(ns as u128, 1_000_000_000)
    }
}

// ---------------------------------------------------------------------- laws

/// The nearest integer to a ratio is at most half away.
pub proof fn law_nearest_is_within_half(num: nat, den: nat)
    requires
        den > 0,
    ensures
        -(den as int) <= 2 * (nearest(num, den) * den - num) <= den,
{
    let q = num / den;
    vstd::arithmetic::div_mod::lemma_fundamental_div_mod(num as int, den as int);
    vstd::arithmetic::div_mod::lemma_mod_bound(num as int, den as int);
    assert((q + 1) * den == den * q + den) by (nonlinear_arith);
    assert(q * den == den * q) by (nonlinear_arith);
}

/// A text of six decimals.
pub open spec fn micros_text(micros: nat) -> Seq<char> {
    dec(micros / 1_000_000) + "."@ + padded(micros % 1_000_000, 6)
}

/// Six decimals are those of the nearest millionth.
pub proof fn law_six_decimals_are_nearest(num: nat, den: nat) -> (micros: nat)
    requires
        den > 0,
    ensures
        six_decimals(num, den) == micros_text(micros),
        -(den as int) <= 2 * (micros * den - num * 1_000_000) <= den,
{
    let micros = nearest(num * 1_000_000, den);
    law_nearest_is_within_half(num * 1_000_000, den);
    reveal_strlit(".");
    assert(six_decimals(num, den) =~= micros_text(micros));
    micros
}

/// A time is written with six decimals, to the nearest microsecond, behind a
/// minus sign iff it is negative.
pub proof fn law_times_are_written_to_the_microsecond(ns: int) -> (micros: nat)
    ensures
        time_text(ns) == (if ns < 0 {
            "-"@
        } else {
            Seq::empty()
        }) + micros_text(micros),
        ns >= 0 ==> -500 <= micros * 1_000 - ns <= 500,
        ns < 0 ==> -500 <= micros * 1_000 + ns <= 500,
{
    let size: nat = if ns < 0 {
        (-ns) as nat
    } else {
        ns as nat
    };
    let micros = law_six_decimals_are_nearest(size, 1_000_000_000);
    assert(Seq::<char>::empty() + micros_text(micros) =~= micros_text(micros));
    micros
}

/// Fixed notation is that of the nearest unit, behind a minus sign iff the number is
/// negative; two, three and four decimals are of hundredths, thousandths and
/// ten-thousandths.
pub proof fn law_fixed_decimals_are_nearest(n: int, scale: nat, places: nat) -> (units: nat)
    requires
        scale > 0,
    ensures
        fixed(n, scale, places) == (if n < 0 {
            "-"@
        } else {
            Seq::empty()
        }) + dec(units / scale) + "."@ + padded(units % scale, places),
        n >= 0 ==> -1_000_000_000 <= 2 * (units * 1_000_000_000 - n * scale) <= 1_000_000_000,
        n < 0 ==> -1_000_000_000 <= 2 * (units * 1_000_000_000 + n * scale) <= 1_000_000_000,
        two_decimals(n) == fixed(n, 100, 2),
        three_decimals(n) == fixed(n, 1_000, 3),
        four_decimals(n) == fixed(n, 10_000, 4),
{
    let size = if n < 0 {
        -n
    } else {
        n
    };
    assert(size * scale >= 0) by (nonlinear_arith)
        requires
            size >= 0,
            scale > 0,
    ;
    assert(n < 0 ==> size * scale == -(n * scale)) by (nonlinear_arith)
        requires
            n < 0 ==> size == -n,
    ;
    let units = nearest((size * scale) as nat, 1_000_000_000);
    law_nearest_is_within_half((size * scale) as nat, 1_000_000_000);
    reveal_strlit("-");
    reveal_strlit(".");
    assert(fixed(n, scale, places) =~= (if n < 0 {
        "-"@
    } else {
        Seq::empty()
    }) + dec(units / scale) + "."@ + padded(units % scale, places));
    units
}

/// Differences and shifts are exact where they fit.
pub proof fn law_exact_where_it_fits(a: i64, b: i64, d: int)
    ensures
        i64::MIN <= a - b <= i64::MAX ==> difference(Real::Nano(a), Real::Nano(b)) == Real::Nano(
            (a - b) as i64,
        ),
        i64::MIN <= a + d <= i64::MAX ==> shifted(Real::Nano(a), d) == Real::Nano((a + d) as i64),
        below(Real::Nano(a), d) <==> a < d,
        above(Real::Nano(a), d) <==> a > d,
{
}

/// A rate below zero is told as the same rate behind a minus sign.
pub proof fn law_rates_below_zero_have_a_sign(rate: Rate)
    ensures
        fps_text(Fps::Minus(rate)) == "-"@ + fps_text(Fps::Rate(rate)),
        fps_text(Fps::Rate(rate)) == six_decimals(rate.num() as nat, rate.den() as nat),
        fps_text(Fps::Zero { negative: false }) == "0.000000"@,
{
    reveal_strlit("");
    assert(fps_text(Fps::Zero { negative: false }) =~= "0.000000"@);
}

} // verus!
