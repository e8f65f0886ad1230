//! What ffprobe reports: stream layout for planning the normalization, and the
//! timestamp checks afterwards.
use crate::fine::{absolute, fine_json, larger, less, parse_fine, parsed_fine, sum, Fine};
use crate::json::{json_string, string_json};
use crate::number::Rate;
use crate::parse::{
    exceeds, is_zero, lemma_on_scale_positive, numeral, on_scale, read_numeral, Numeral, NumeralView, MAX_EXPONENT,
};
use crate::text::{all_digits, chars_of, dec, push_dec, same, string_of, value};
use vstd::prelude::*;
use vstd::string::StringExecFns;

verus! {

/// The constant rates a master may use.
pub open spec fn standard_rates() -> Seq<(u32, u32)> {
    seq![
        (24000u32, 1001u32),
        (24u32, 1u32),
        (25u32, 1u32),
        (30000u32, 1001u32),
        (30u32, 1u32),
        (48u32, 1u32),
        (50u32, 1u32),
        (60000u32, 1001u32),
        (60u32, 1u32),
    ]
}

fn standard_fps() -> (v: Vec<(u32, u32)>)
    ensures
        v@ == standard_rates(),
{
    let v: Vec<(u32, u32)> = vec![
        (24000, 1001),
        (24, 1),
        (25, 1),
        (30000, 1001),
        (30, 1),
        (48, 1),
        (50, 1),
        (60000, 1001),
        (60, 1),
    ];
    assert(v@ =~= standard_rates());
    v
}

/// How far a standard rate is from `num / den`, times the rate's denominator
/// and `den`.
pub open spec fn rate_error(rate: (u32, u32), num: int, den: int) -> int {
    let d = rate.0 * den - num * rate.1;
    if d < 0 {
        -d
    } else {
        d
    }
}

/// Whether standard rate `a` is nearer to `num / den` than `b`.
pub open spec fn nearer(a: (u32, u32), b: (u32, u32), num: int, den: int) -> bool {
    rate_error(a, num, den) * b.1 < rate_error(b, num, den) * a.1
}

/// The nearest of the first `n` standard rates, the first of equals.
pub open spec fn nearest_of(n: nat, num: int, den: int) -> (u32, u32)
    decreases n,
{
    if n <= 1 {
        standard_rates()[0]
    } else {
        let best = nearest_of((n - 1) as nat, num, den);
        let next = standard_rates()[n - 1];
        if nearer(next, best, num, den) {
            next
        } else {
            best
        }
    }
}

/// The position of the first `/` of a text.
pub open spec fn first_slash(s: Seq<char>, from: int) -> Option<int>
    decreases s.len() - from,
{
    if from < 0 || from >= s.len() {
        None
    } else if s[from] == '/' {
        Some(from)
    } else {
        first_slash(s, from + 1)
    }
}

/// Whether a numeral writes a number that is not positive.
pub open spec fn unusable(n: NumeralView) -> bool {
    match n {
        NumeralView::Decimal { negative, digits, .. } => negative || value(digits) == 0,
        NumeralView::NaN => false,
        NumeralView::Infinite { negative } => negative,
    }
}

/// The standard rate nearest to a rational `num/den`; none where the text is
/// not one of positive numbers. One that is not finite is taken for the first.
pub open spec fn nearest_rate(s: Seq<char>) -> Option<(u32, u32)> {
    match first_slash(s, 0) {
        None => None,
        Some(at) => match (numeral(s.take(at)), numeral(s.skip(at + 1))) {
            (Some(num), Some(den)) => if unusable(num) || unusable(den) {
                None
            } else {
                match (num, den) {
                    (
                        NumeralView::Decimal { digits: n, point: i, .. },
                        NumeralView::Decimal { digits: d, point: j, .. },
                    ) => Some(
                        nearest_of(
                            standard_rates().len(),
                            on_scale(n, i, d, j),
                            on_scale(d, j, n, i),
                        ),
                    ),
                    _ => Some(standard_rates()[0]),
                }
            },
            _ => None,
        },
    }
}

fn find_slash(s: &Vec<char>) -> (r: Option<usize>)
    ensures
        match first_slash(s@, 0) {
            Some(at) => r == Some(at as usize) && 0 <= at < s@.len(),
            None => r is None,
        },
{
    let mut i: usize = 0;
    while i < s.len()
        invariant
            i <= s@.len(),
            first_slash(s@, 0) == first_slash(s@, i as int),
        decreases s@.len() - i,
    {
        if s[i] == '/' {
            return Some(i);
        }
        i = i + 1;
    }
    None
}

/// A rate is nearer than a lower one exactly where the number exceeds their
/// mean.
proof fn lemma_nearer_above_the_mean(a: (u32, u32), b: (u32, u32), num: int, den: int)
    requires
        num > 0,
        den > 0,
        a.1 > 0,
        b.1 > 0,
        a.0 * b.1 > b.0 * a.1,
    ensures
        nearer(a, b, num, den) <==> (2 * a.1 * b.1) * num > (a.0 * b.1 + b.0 * a.1) * den,
{
    let (x, m, y, n) = (a.0 as int, a.1 as int, b.0 as int, b.1 as int);
    // Everything over the common denominator.
    let (u, w, v) = ((x * den) * n, (y * den) * m, (num * m) * n);
    assert((x * den - num * m) * n == u - v) by (nonlinear_arith)
        requires
            u == (x * den) * n,
            v == (num * m) * n,
    ;
    assert((y * den - num * n) * m == w - v) by (nonlinear_arith)
        requires
            w == (y * den) * m,
            v == (num * m) * n,
    ;
    assert(u > w) by (nonlinear_arith)
        requires
            u == (x * den) * n,
            w == (y * den) * m,
            x * n > y * m,
            den > 0,
    ;
    assert((2 * m * n) * num == 2 * v) by (nonlinear_arith)
        requires
            v == (num * m) * n,
    ;
    assert((x * n + y * m) * den == u + w) by (nonlinear_arith)
        requires
            u == (x * den) * n,
            w == (y * den) * m,
    ;
    let (da, db) = (x * den - num * m, y * den - num * n);
    assert(rate_error(a, num, den) * n == if u >= v {
        u - v
    } else {
        v - u
    }) by (nonlinear_arith)
        requires
            da * n == u - v,
            n > 0,
            rate_error(a, num, den) == (if da < 0 {
                -da
            } else {
                da
            }),
    ;
    assert(rate_error(b, num, den) * m == if w >= v {
        w - v
    } else {
        v - w
    }) by (nonlinear_arith)
        requires
            db * m == w - v,
            m > 0,
            rate_error(b, num, den) == (if db < 0 {
                -db
            } else {
                db
            }),
    ;
}

/// The standard rates ascend.
proof fn lemma_rates_ascend(j: int, k: int)
    requires
        0 <= j < k < standard_rates().len(),
    ensures
        standard_rates()[k].0 * standard_rates()[j].1 > standard_rates()[j].0
            * standard_rates()[k].1,
        standard_rates()[j].1 > 0 && standard_rates()[k].1 > 0,
{
    let r = standard_rates();
    assert(r[0] == (24000u32, 1001u32) && r[1] == (24u32, 1u32) && r[2] == (25u32, 1u32));
    assert(r[3] == (30000u32, 1001u32) && r[4] == (30u32, 1u32) && r[5] == (48u32, 1u32));
    assert(r[6] == (50u32, 1u32) && r[7] == (60000u32, 1001u32) && r[8] == (60u32, 1u32));
    assert(j == 0 || j == 1 || j == 2 || j == 3 || j == 4 || j == 5 || j == 6 || j == 7);
    assert(k == 1 || k == 2 || k == 3 || k == 4 || k == 5 || k == 6 || k == 7 || k == 8);
}

fn is_unusable(n: &Numeral) -> (b: bool)
    requires
        *n matches Numeral::Decimal { digits, .. } ==> all_digits(digits@),
    ensures
        b == unusable(n@),
{
    match n {
        Numeral::Decimal { negative, digits, .. } => *negative || is_zero(digits),
        Numeral::NaN => false,
        Numeral::Infinite { negative } => *negative,
    }
}

/// The standard rate nearest to an average frame rate such as `30000/1001`.
pub fn nearest_standard_fps(avg_frame_rate: &str) -> (r: Option<(u32, u32)>)
    ensures
        r == nearest_rate(avg_frame_rate@),
{
    let s: Vec<char> = chars_of(avg_frame_rate);
    let at: usize = match find_slash(&s) {
        Some(at) => at,
        None => {
            return None;
        },
    };
    let left: String = string_of(s.as_slice(), 0, at);
    let right: String = string_of(s.as_slice(), at + 1, s.len());
    assert(left@ =~= avg_frame_rate@.take(at as int));
    assert(right@ =~= avg_frame_rate@.skip(at + 1));
    let (num, den): (Numeral, Numeral) = match (
        read_numeral(left.as_str()),
        read_numeral(right.as_str()),
    ) {
        (Some(num), Some(den)) => (num, den),
        _ => {
            return None;
        },
    };
    if is_unusable(&num) || is_unusable(&den) {
        return None;
    }
    let rates: Vec<(u32, u32)> = standard_fps();
    match (num, den) {
        (
            Numeral::Decimal { digits: n, point: i, .. },
            Numeral::Decimal { digits: d, point: j, .. },
        ) => Some(nearest_of_rates(&n, i, &d, j)),
        _ => Some(rates[0]),
    }
}

fn nearest_of_rates(n: &Vec<char>, i: i128, d: &Vec<char>, j: i128) -> (best: (u32, u32))
    requires
        all_digits(n@),
        all_digits(d@),
        value(n@) > 0,
        value(d@) > 0,
        -MAX_EXPONENT <= i <= MAX_EXPONENT + usize::MAX,
        -MAX_EXPONENT <= j <= MAX_EXPONENT + usize::MAX,
    ensures
        best == nearest_of(
            standard_rates().len(),
            on_scale(n@, i as int, d@, j as int),
            on_scale(d@, j as int, n@, i as int),
        ),
{
    let ghost num = on_scale(n@, i as int, d@, j as int);
    let ghost den = on_scale(d@, j as int, n@, i as int);
    proof {
        lemma_on_scale_positive(n@, i as int, d@, j as int);
        lemma_on_scale_positive(d@, j as int, n@, i as int);
    }
    let rates: Vec<(u32, u32)> = standard_fps();
    let mut best: usize = 0;
    let mut k: usize = 1;
    while k < rates.len()
        invariant
            best < k <= rates@.len(),
            rates@ == standard_rates(),
            num > 0,
            den > 0,
            num == on_scale(n@, i as int, d@, j as int),
            den == on_scale(d@, j as int, n@, i as int),
            all_digits(n@),
            all_digits(d@),
            -MAX_EXPONENT <= i <= MAX_EXPONENT + usize::MAX,
            -MAX_EXPONENT <= j <= MAX_EXPONENT + usize::MAX,
            rates@[best as int] == nearest_of(k as nat, num, den),
        decreases rates@.len() - k,
    {
        let (a, b): ((u32, u32), (u32, u32)) = (rates[k], rates[best]);
        proof {
            lemma_rates_ascend(best as int, k as int);
            lemma_rates_small(best as int);
            lemma_rates_small(k as int);
            lemma_nearer_above_the_mean(a, b, num, den);
            lemma_small_product(a.1 as int, b.1 as int);
            lemma_small_product(a.0 as int, b.1 as int);
            lemma_small_product(b.0 as int, a.1 as int);
            assert(a.1 * b.1 > 0) by (nonlinear_arith)
                requires
                    a.1 > 0,
                    b.1 > 0,
            ;
            assert(2 * a.1 * b.1 == 2 * (a.1 * b.1)) by (nonlinear_arith);
        }
        let q: u64 = 2 * (a.1 as u64 * b.1 as u64);
        let p: u64 = a.0 as u64 * b.1 as u64 + b.0 as u64 * a.1 as u64;
        if exceeds(n, i, d, j, q, p) {
            best = k;
        }
        k = k + 1;
    }
    rates[best]
}

proof fn lemma_small_product(a: int, b: int)
    requires
        0 <= a <= 60000,
        0 <= b <= 60000,
    ensures
        0 <= a * b <= 60000 * 60000,
{
    assert(0 <= a * b <= 60000 * 60000) by (nonlinear_arith)
        requires
            0 <= a <= 60000,
            0 <= b <= 60000,
    ;
}

proof fn lemma_rates_small(k: int)
    requires
        0 <= k < standard_rates().len(),
    ensures
        0 < standard_rates()[k].0 <= 60000,
        0 < standard_rates()[k].1 <= 1001,
{
    let r = standard_rates();
    assert(r[0] == (24000u32, 1001u32) && r[1] == (24u32, 1u32) && r[2] == (25u32, 1u32));
    assert(r[3] == (30000u32, 1001u32) && r[4] == (30u32, 1u32) && r[5] == (48u32, 1u32));
    assert(r[6] == (50u32, 1u32) && r[7] == (60000u32, 1001u32) && r[8] == (60u32, 1u32));
    assert(k == 0 || k == 1 || k == 2 || k == 3 || k == 4 || k == 5 || k == 6 || k == 7 || k == 8);
}

/// An average rate of positive decimal numbers always has a standard rate, and
/// no standard rate is nearer to it.
pub proof fn law_chosen_rate_is_nearest(s: Seq<char>, at: int, k: int)
    requires
        first_slash(s, 0) == Some(at),
        numeral(s.take(at)) matches Some(n) && n is Decimal && !unusable(n),
        numeral(s.skip(at + 1)) matches Some(d) && d is Decimal && !unusable(d),
        0 <= k < standard_rates().len(),
    ensures
        nearest_rate(s) is Some,
        standard_rates().contains(nearest_rate(s)->0),
        ({
            let (n, d) = (numeral(s.take(at))->0, numeral(s.skip(at + 1))->0);
            !nearer(
                standard_rates()[k],
                nearest_rate(s)->0,
                on_scale(n->digits, n->point, d->digits, d->point),
                on_scale(d->digits, d->point, n->digits, n->point),
            )
        }),
{
    let (n, d) = (numeral(s.take(at))->0, numeral(s.skip(at + 1))->0);
    lemma_on_scale_positive(n->digits, n->point, d->digits, d->point);
    lemma_on_scale_positive(d->digits, d->point, n->digits, n->point);
    law_nearest_rate_is_nearest(
        on_scale(n->digits, n->point, d->digits, d->point),
        on_scale(d->digits, d->point, n->digits, n->point),
        k,
    );
}

/// No standard rate is nearer than the one chosen.
pub proof fn law_nearest_rate_is_nearest(num: int, den: int, k: int)
    requires
        num > 0,
        den > 0,
        0 <= k < standard_rates().len(),
    ensures
        !nearer(
            standard_rates()[k],
            nearest_of(standard_rates().len(), num, den),
            num,
            den,
        ),
        standard_rates().contains(nearest_of(standard_rates().len(), num, den)),
{
    lemma_nearest_of(standard_rates().len(), num, den, k);
}

proof fn lemma_nearest_of(n: nat, num: int, den: int, k: int)
    requires
        num > 0,
        den > 0,
        0 <= k < n <= standard_rates().len(),
    ensures
        !nearer(standard_rates()[k], nearest_of(n, num, den), num, den),
        standard_rates().contains(nearest_of(n, num, den)),
        nearest_of(n, num, den).1 > 0,
    decreases n,
{
    let rates = standard_rates();
    assert(rates[0].1 > 0 && rates[k].1 > 0 && rates[n - 1].1 > 0);
    if n <= 1 {
        assert(rates.contains(rates[0]));
    } else {
        let best = nearest_of((n - 1) as nat, num, den);
        let next = rates[n - 1];
        assert(rates.contains(next));
        if k < n - 1 {
            lemma_nearest_of((n - 1) as nat, num, den, k);
            if nearer(next, best, num, den) {
                let (a, b, c) = (
                    rate_error(rates[k], num, den),
                    rate_error(best, num, den),
                    rate_error(next, num, den),
                );
                let (p, q, r) = (rates[k].1 as int, best.1 as int, next.1 as int);
                assert(a * r >= c * p) by (nonlinear_arith)
                    requires
                        a * q >= b * p,
                        c * q < b * r,
                        p > 0,
                        q > 0,
                        r > 0,
                        a >= 0,
                        b >= 0,
                        c >= 0,
                ;
            }
        } else {
            lemma_nearest_of((n - 1) as nat, num, den, 0);
        }
    }
}

// ---------------------------------------------------------------------- streams

/// What ffprobe reports of a stream.
#[derive(Debug)]
pub struct Stream {
    pub codec_type: String,
    /// The stream's index, as JSON text.
    pub index: String,
    pub start_time: Option<String>,
    /// Whether the stream is an embedded picture.
    pub attached_pic: bool,
    pub avg_frame_rate: Option<String>,
}

/// The layout of a source.
#[derive(Debug)]
pub struct Probe {
    pub has_audio: bool,
    /// Real video: embedded pictures do not count.
    pub has_video: bool,
    /// The standard rate nearest to the source's average rate.
    pub fps: Option<(u32, u32)>,
    /// Per-stream start times, by kind and index.
    pub start_offsets: Vec<(String, Fine)>,
}

/// A rate as a rational text.
pub open spec fn rational_text(rate: (u32, u32)) -> Seq<char> {
    dec(rate.0 as nat) + "/"@ + dec(rate.1 as nat)
}

/// A rate as a rational text.
pub fn fmt_rational(rate: (u32, u32)) -> (s: String)
    ensures
        s@ == rational_text(rate),
{
    let mut s: String = String::new();
    push_dec(&mut s, rate.0 as u128);
    assert(s@ =~= dec(rate.0 as nat));
    s.append("/");
    push_dec(&mut s, rate.1 as u128);
    s
}

impl Probe {
    /// The constant rate of the master.
    pub open spec fn spec_fps_value(&self) -> Option<Rate> {
        match self.fps {
            Some((num, den)) => Rate::spec_new(num, den),
            None => None,
        }
    }

    /// The constant rate of the master.
    pub fn fps_value(&self) -> (r: Option<Rate>)
        ensures
            r == self.spec_fps_value(),
    {
        match self.fps {
            Some((num, den)) => Rate::new(num, den),
            None => None,
        }
    }

    /// The constant rate of the master, as a rational text.
    pub fn fps_rational(&self) -> (r: Option<String>)
        ensures
            match self.fps {
                Some(rate) => r is Some && r->0@ == rational_text(rate),
                None => r is None,
            },
    {
        match self.fps {
            Some(rate) => Some(fmt_rational(rate)),
            None => None,
        }
    }
}

/// A stream's start time; zero where none is reported.
pub open spec fn start_of(s: Stream) -> Fine {
    match s.start_time {
        Some(t) => match parsed_fine(t@) {
            Some(r) => r,
            None => Fine::Atto(0),
        },
        None => Fine::Atto(0),
    }
}

/// A stream's entry among the start offsets.
pub open spec fn offset_entry(s: Stream) -> (Seq<char>, Fine) {
    (s.codec_type@ + ":"@ + s.index@, start_of(s))
}

/// The start offsets of streams.
pub open spec fn offset_views(v: Seq<(String, Fine)>) -> Seq<(Seq<char>, Fine)> {
    Seq::new(v.len(), |i: int| (v[i].0@, v[i].1))
}

/// Whether a stream is real video.
pub open spec fn real_video(s: Stream) -> bool {
    s.codec_type@ == "video"@ && !s.attached_pic
}

/// Whether one of the first `n` streams is audio.
pub open spec fn any_audio(streams: Seq<Stream>, n: int) -> bool {
    exists|i: int| #![trigger streams[i]] 0 <= i < n && streams[i].codec_type@ == "audio"@
}

/// The rate of the first of the first `n` streams that is real video of a rate.
pub open spec fn first_rate(streams: Seq<Stream>, n: int) -> Option<(u32, u32)>
    decreases n,
{
    if n <= 0 {
        None
    } else if first_rate(streams, n - 1) is Some {
        first_rate(streams, n - 1)
    } else if real_video(streams[n - 1]) && streams[n - 1].avg_frame_rate is Some {
        nearest_rate(streams[n - 1].avg_frame_rate->0@)
    } else {
        None
    }
}

fn start_time(s: &Stream) -> (r: Fine)
    ensures
        r == start_of(*s),
{
    match &s.start_time {
        Some(t) => match parse_fine(t.as_str()) {
            Some(r) => r,
            None => Fine::Atto(0),
        },
        None => Fine::Atto(0),
    }
}

/// The layout that a list of streams describes.
pub fn probe(streams: &Vec<Stream>) -> (p: Probe)
    ensures
        p.has_audio == any_audio(streams@, streams@.len() as int),
        p.fps == first_rate(streams@, streams@.len() as int),
        p.has_video == p.fps is Some,
        offset_views(p.start_offsets@) == streams@.map_values(|s: Stream| offset_entry(s)),
{
    let ghost all = streams@.map_values(|s: Stream| offset_entry(s));
    let mut has_audio: bool = false;
    let mut fps: Option<(u32, u32)> = None;
    let mut offsets: Vec<(String, Fine)> = Vec::new();
    let mut i: usize = 0;
    assert(offset_views(offsets@) =~= all.take(0));
    while i < streams.len()
        invariant
            i <= streams@.len(),
            all == streams@.map_values(|s: Stream| offset_entry(s)),
            has_audio == any_audio(streams@, i as int),
            fps == first_rate(streams@, i as int),
            offset_views(offsets@) == all.take(i as int),
        decreases streams@.len() - i,
    {
        let s: &Stream = &streams[i];
        let mut key: String = s.codec_type.as_str().to_owned();
        key.append(":");
        key.append(s.index.as_str());
        let ghost before = offset_views(offsets@);
        let entry: (String, Fine) = (key, start_time(s));
        let ghost added = (entry.0@, entry.1);
        offsets.push(entry);
        assert(offset_views(offsets@) =~= before.push(added));
        assert(all.take(i + 1) =~= all.take(i as int).push(all[i as int]));
        if same(s.codec_type.as_str(), "audio") {
            has_audio = true;
            assert(streams@[i as int].codec_type@ == "audio"@);
        } else if same(s.codec_type.as_str(), "video") && !s.attached_pic && fps.is_none() {
            if let Some(avg) = &s.avg_frame_rate {
                fps = nearest_standard_fps(avg.as_str());
            }
        }
        proof {
            reveal_strlit("audio");
            reveal_strlit("video");
            assert("audio"@[0] != "video"@[0]);
            assert(any_audio(streams@, i + 1) == (any_audio(streams@, i as int)
                || streams@[i as int].codec_type@ == "audio"@)) by {
                if any_audio(streams@, i + 1) && !(streams@[i as int].codec_type@ == "audio"@) {
                    let k = choose|k: int|
                        #![trigger streams@[k]]
                        0 <= k < i + 1 && streams@[k].codec_type@ == "audio"@;
                    assert(k < i);
                }
            }
        }
        i = i + 1;
    }
    assert(all.take(i as int) =~= all);
    Probe { has_audio, has_video: fps.is_some(), fps, start_offsets: offsets }
}

// ---------------------------------------------------------------- start offsets

/// Whether one text sorts before another.
pub open spec fn sorts_before(a: Seq<char>, b: Seq<char>) -> bool
    decreases a.len(),
{
    if b.len() == 0 {
        false
    } else if a.len() == 0 {
        true
    } else if a[0] != b[0] {
        a[0] < b[0]
    } else {
        sorts_before(a.drop_first(), b.drop_first())
    }
}

/// A list sorted by name, with a value set under a name.
pub open spec fn with_offset(
    list: Seq<(Seq<char>, Fine)>,
    name: Seq<char>,
    value: Fine,
) -> Seq<(Seq<char>, Fine)>
    decreases list.len(),
{
    if list.len() == 0 || sorts_before(list.last().0, name) {
        list.push((name, value))
    } else if list.last().0 == name {
        list.drop_last().push((name, value))
    } else {
        with_offset(list.drop_last(), name, value).push(list.last())
    }
}

/// Start offsets sorted by name: of two under one name, the later counts.
pub open spec fn sorted_offsets(offsets: Seq<(Seq<char>, Fine)>) -> Seq<(Seq<char>, Fine)>
    decreases offsets.len(),
{
    if offsets.len() == 0 {
        Seq::empty()
    } else {
        with_offset(sorted_offsets(offsets.drop_last()), offsets.last().0, offsets.last().1)
    }
}

/// The members of a JSON object, with commas between.
pub open spec fn members_json(list: Seq<(Seq<char>, Fine)>) -> Seq<char>
    decreases list.len(),
{
    if list.len() == 0 {
        Seq::empty()
    } else {
        let member = json_string(list.last().0) + ":"@ + fine_json(list.last().1);
        if list.len() == 1 {
            member
        } else {
            members_json(list.drop_last()) + ","@ + member
        }
    }
}

fn is_before(a: &Vec<char>, b: &Vec<char>) -> (r: bool)
    ensures
        r == sorts_before(a@, b@),
{
    let mut i: usize = 0;
    assert(a@.skip(0) =~= a@);
    assert(b@.skip(0) =~= b@);
    while i < a.len() && i < b.len()
        invariant
            i <= a@.len(),
            i <= b@.len(),
            sorts_before(a@, b@) == sorts_before(a@.skip(i as int), b@.skip(i as int)),
        decreases a@.len() - i,
    {
        if a[i] != b[i] {
            return a[i] < b[i];
        }
        assert(a@.skip(i as int).drop_first() =~= a@.skip(i + 1));
        assert(b@.skip(i as int).drop_first() =~= b@.skip(i + 1));
        i = i + 1;
    }
    i < b.len()
}

fn put_offset(list: &mut Vec<(String, Fine)>, name: String, value: Fine)
    ensures
        offset_views(final(list)@) == with_offset(offset_views(old(list)@), name@, value),
    decreases old(list)@.len(),
{
    let ghost before = offset_views(old(list)@);
    match list.pop() {
        None => {
            list.push((name, value));
            assert(offset_views(list@) =~= before.push((name@, value)));
        },
        Some(last) => {
            assert(offset_views(list@) =~= before.drop_last());
            assert(before.last() == (last.0@, last.1));
            if is_before(&chars_of(last.0.as_str()), &chars_of(name.as_str())) {
                list.push(last);
                list.push((name, value));
                assert(offset_views(list@) =~= before.push((name@, value)));
            } else if same(last.0.as_str(), name.as_str()) {
                list.push((name, value));
                assert(offset_views(list@) =~= before.drop_last().push((name@, value)));
            } else {
                put_offset(list, name, value);
                let ghost sorted = offset_views(list@);
                list.push(last);
                assert(offset_views(list@) =~= sorted.push(before.last()));
            }
        },
    }
}

fn sort_offsets(offsets: &Vec<(String, Fine)>) -> (list: Vec<(String, Fine)>)
    ensures
        offset_views(list@) == sorted_offsets(offset_views(offsets@)),
{
    let ghost all = offset_views(offsets@);
    let mut list: Vec<(String, Fine)> = Vec::new();
    let mut i: usize = 0;
    assert(offset_views(list@) =~= sorted_offsets(all.take(0)));
    while i < offsets.len()
        invariant
            i <= offsets@.len(),
            all == offset_views(offsets@),
            offset_views(list@) == sorted_offsets(all.take(i as int)),
        decreases offsets@.len() - i,
    {
        assert(all.take(i + 1).drop_last() =~= all.take(i as int));
        put_offset(&mut list, offsets[i].0.as_str().to_owned(), offsets[i].1);
        i = i + 1;
    }
    assert(all.take(i as int) =~= all);
    list
}

/// Start offsets as a JSON object.
pub open spec fn offsets_json(offsets: Seq<(Seq<char>, Fine)>) -> Seq<char> {
    "{"@ + members_json(sorted_offsets(offsets)) + "}"@
}

impl Probe {
    /// The start offsets as a JSON object, the record of what was checked.
    pub fn start_offsets_json(&self) -> (s: String)
        ensures
            s@ == offsets_json(offset_views(self.start_offsets@)),
    {
        let list: Vec<(String, Fine)> = sort_offsets(&self.start_offsets);
        let ghost all = offset_views(list@);
        let mut s: String = "{".to_owned();
        let mut i: usize = 0;
        assert(s@ =~= "{"@ + members_json(all.take(0)));
        while i < list.len()
            invariant
                i <= list@.len(),
                all == offset_views(list@),
                s@ == "{"@ + members_json(all.take(i as int)),
            decreases list@.len() - i,
        {
            let ghost before = s@;
            assert(all.take(i + 1).drop_last() =~= all.take(i as int));
            if i > 0 {
                s.append(",");
            }
            let name: String = string_json(list[i].0.as_str());
            s.append(name.as_str());
            s.append(":");
            list[i].1.push_json(&mut s);
            assert(s@ =~= "{"@ + members_json(all.take(i + 1))) by {
                if i == 0 {
                    assert(before =~= "{"@);
                }
            }
            i = i + 1;
        }
        assert(all.take(i as int) =~= all);
        s.append("}");
        s
    }
}

// ------------------------------------------------------------------ time checks

/// The largest of the first `n` streams' start times, by size: a stream
/// without a readable one does not count.
pub open spec fn largest_start(streams: Seq<Stream>, n: int) -> Fine
    decreases n,
{
    if n <= 0 {
        Fine::Atto(0)
    } else {
        let before = largest_start(streams, n - 1);
        match streams[n - 1].start_time {
            Some(t) => match parsed_fine(t@) {
                Some(r) => larger(before, absolute(r)),
                None => before,
            },
            None => before,
        }
    }
}

/// The largest start time of a master's streams, by size.
pub fn max_start_offset(streams: &Vec<Stream>) -> (r: Fine)
    ensures
        r == largest_start(streams@, streams@.len() as int),
{
    let mut worst: Fine = Fine::Atto(0);
    let mut i: usize = 0;
    while i < streams.len()
        invariant
            i <= streams@.len(),
            worst == largest_start(streams@, i as int),
        decreases streams@.len() - i,
    {
        if let Some(t) = &streams[i].start_time {
            if let Some(r) = parse_fine(t.as_str()) {
                worst = worst.larger_of(r.abs());
            }
        }
        i = i + 1;
    }
    worst
}

/// What ffprobe reports of a packet.
#[derive(Debug)]
pub struct Packet {
    pub pts_time: Option<String>,
    pub duration_time: Option<String>,
}

/// An optional numeral's quantity.
pub open spec fn numeral_of(s: Option<String>) -> Option<Fine> {
    match s {
        Some(t) => parsed_fine(t@),
        None => None,
    }
}

fn read_time(s: &Option<String>) -> (r: Option<Fine>)
    ensures
        r == numeral_of(*s),
{
    match s {
        Some(t) => parse_fine(t.as_str()),
        None => None,
    }
}

/// The largest discontinuity among the first `n` packets, and where the last of
/// them ends: each packet is to begin where the one before it ends. A packet
/// without a time does not count, one without a duration has none.
pub open spec fn discontinuity(packets: Seq<Packet>, n: int) -> (Fine, Option<Fine>)
    decreases n,
{
    if n <= 0 {
        (Fine::Atto(0), None)
    } else {
        let (worst, end) = discontinuity(packets, n - 1);
        match numeral_of(packets[n - 1].pts_time) {
            None => (worst, end),
            Some(pts) => {
                let dur = match numeral_of(packets[n - 1].duration_time) {
                    Some(d) => d,
                    None => Fine::Atto(0),
                };
                (
                    match end {
                        Some(e) => larger(worst, absolute(less(pts, e))),
                        None => worst,
                    },
                    Some(sum(pts, dur)),
                )
            },
        }
    }
}

/// The largest audio packet discontinuity of a master: the gap between each
/// packet's end and the next packet's time.
pub fn max_audio_discontinuity(packets: &Vec<Packet>) -> (r: Fine)
    ensures
        r == discontinuity(packets@, packets@.len() as int).0,
{
    let mut worst: Fine = Fine::Atto(0);
    let mut end: Option<Fine> = None;
    let mut i: usize = 0;
    while i < packets.len()
        invariant
            i <= packets@.len(),
            (worst, end) == discontinuity(packets@, i as int),
        decreases packets@.len() - i,
    {
        if let Some(pts) = read_time(&packets[i].pts_time) {
            let dur: Fine = match read_time(&packets[i].duration_time) {
                Some(d) => d,
                None => Fine::Atto(0),
            };
            if let Some(e) = end {
                worst = worst.larger_of(pts.minus(e).abs());
            }
            end = Some(pts.plus(dur));
        }
        i = i + 1;
    }
    worst
}

// ---------------------------------------------------------------------- laws

/// The distance of two integers.
pub open spec fn apart(a: int, b: int) -> int {
    if a < b {
        b - a
    } else {
        a - b
    }
}

/// One of the nine rates of film and television.
pub open spec fn is_standard(rate: (u32, u32)) -> bool {
    ||| rate == (24000u32, 1001u32)
    ||| rate == (24u32, 1u32)
    ||| rate == (25u32, 1u32)
    ||| rate == (30000u32, 1001u32)
    ||| rate == (30u32, 1u32)
    ||| rate == (48u32, 1u32)
    ||| rate == (50u32, 1u32)
    ||| rate == (60000u32, 1001u32)
    ||| rate == (60u32, 1u32)
}

/// The rate chosen for an average of `num / den` is a standard one, and none is
/// closer to it.
pub proof fn law_the_closest_standard_rate_is_chosen(num: int, den: int, other: (u32, u32))
    requires
        num > 0,
        den > 0,
        is_standard(other),
    ensures
        ({
            let chosen = nearest_of(standard_rates().len(), num, den);
            &&& is_standard(chosen)
            &&& apart(chosen.0 * den, num * chosen.1) * other.1 <= apart(
                other.0 * den,
                num * other.1,
            ) * chosen.1
        }),
{
    let r = standard_rates();
    assert(r[0] == (24000u32, 1001u32) && r[1] == (24u32, 1u32) && r[2] == (25u32, 1u32));
    assert(r[3] == (30000u32, 1001u32) && r[4] == (30u32, 1u32) && r[5] == (48u32, 1u32));
    assert(r[6] == (50u32, 1u32) && r[7] == (60000u32, 1001u32) && r[8] == (60u32, 1u32));
    let k = choose|k: int| 0 <= k < 9 && r[k] == other;
    law_nearest_rate_is_nearest(num, den, k);
    let chosen = nearest_of(r.len(), num, den);
    let j = choose|j: int| 0 <= j < r.len() && r[j] == chosen;
    assert(j == 0 || j == 1 || j == 2 || j == 3 || j == 4 || j == 5 || j == 6 || j == 7 || j == 8);
    assert(rate_error(chosen, num, den) == apart(chosen.0 * den, num * chosen.1));
    assert(rate_error(other, num, den) == apart(other.0 * den, num * other.1));
}

/// A source's rate is that of its first real video stream that has one:
/// embedded pictures and other streams do not count.
pub proof fn law_the_first_real_video_gives_the_rate(streams: Seq<Stream>, n: int)
    requires
        0 <= n <= streams.len(),
    ensures
        ({
            let rated = |i: int|
                streams[i].codec_type@ == "video"@ && !streams[i].attached_pic
                    && streams[i].avg_frame_rate is Some && nearest_rate(
                    streams[i].avg_frame_rate->0@,
                ) is Some;
            match first_rate(streams, n) {
                Some(rate) => exists|i: int|
                    #![trigger streams[i]]
                    0 <= i < n && rated(i) && rate == nearest_rate(streams[i].avg_frame_rate->0@)->0
                        && forall|j: int| #![trigger streams[j]] 0 <= j < i ==> !rated(j),
                None => forall|i: int| #![trigger streams[i]] 0 <= i < n ==> !rated(i),
            }
        }),
    decreases n,
{
    if n > 0 {
        law_the_first_real_video_gives_the_rate(streams, n - 1);
        let s = streams[n - 1];
        assert(real_video(s) == (s.codec_type@ == "video"@ && !s.attached_pic));
    }
}

/// A source has audio iff one of its streams is audio.
pub proof fn law_audio_is_an_audio_stream(streams: Seq<Stream>)
    ensures
        any_audio(streams, streams.len() as int) <==> exists|i: int|
            0 <= i < streams.len() && (#[trigger] streams[i]).codec_type@ == "audio"@,
{
}

/// A stream's start is entered under its kind and index, as it was reported, or
/// as zero.
pub proof fn law_starts_are_entered_as_reported(s: Stream)
    ensures
        offset_entry(s).0 == s.codec_type@ + ":"@ + s.index@,
        s.start_time is None ==> offset_entry(s).1 == Fine::Atto(0),
        s.start_time matches Some(t) ==> (parsed_fine(t@) is None ==> offset_entry(s).1
            == Fine::Atto(0)) && (parsed_fine(t@) matches Some(r) ==> offset_entry(s).1 == r),
{
}

/// An average of two whole numbers gives the standard rate that is closest to their
/// ratio; one with a zero gives none.
pub proof fn law_average_rates_give_the_closest(n: nat, d: nat, other: (u32, u32))
    requires
        is_standard(other),
    ensures
        ({
            let r = nearest_rate(crate::text::dec(n) + "/"@ + crate::text::dec(d));
            &&& r is Some <==> n > 0 && d > 0
            &&& r matches Some(c) ==> is_standard(c) && apart(c.0 * d, n * c.1) * other.1 <= apart(
                other.0 * d,
                n * other.1,
            ) * c.1
        }),
{
    let (a, b) = (crate::text::dec(n), crate::text::dec(d));
    let s = a + "/"@ + b;
    reveal_strlit("/");
    crate::text::law_numerals_read_back(n);
    crate::text::law_numerals_read_back(d);
    crate::parse::law_whole_numerals_are_read(n);
    crate::parse::law_whole_numerals_are_read(d);
    lemma_first_slash(a, b, 0);
    assert(s.take(a.len() as int) =~= a);
    assert(s.skip(a.len() as int + 1) =~= b);
    assert(crate::parse::ten_to(0) == 1);
    assert(n * 1 == n && d * 1 == d);
    assert(on_scale(a, a.len() as int, b, b.len() as int) == n);
    assert(on_scale(b, b.len() as int, a, a.len() as int) == d);
    if n > 0 && d > 0 {
        law_the_closest_standard_rate_is_chosen(n as int, d as int, other);
    }
}

proof fn lemma_first_slash(a: Seq<char>, b: Seq<char>, from: int)
    requires
        crate::text::all_digits(a),
        0 <= from <= a.len(),
    ensures
        first_slash(a + "/"@ + b, from) == Some(a.len() as int),
    decreases a.len() - from,
{
    reveal_strlit("/");
    let s = a + "/"@ + b;
    if from < a.len() {
        assert(s[from] == a[from]);
        assert(crate::text::ascii_digit(a[from]));
        lemma_first_slash(a, b, from + 1);
    } else {
        assert(s[from] == '/');
    }
}

proof fn lemma_sorts(a: Seq<char>, b: Seq<char>, c: Seq<char>)
    ensures
        !sorts_before(a, a),
        sorts_before(a, b) && sorts_before(b, c) ==> sorts_before(a, c),
        a == b || sorts_before(a, b) || sorts_before(b, a),
    decreases a.len() + b.len() + c.len(),
{
    if a.len() > 0 {
        if b.len() > 0 {
            if c.len() > 0 {
                lemma_sorts(a.drop_first(), b.drop_first(), c.drop_first());
            } else {
                lemma_sorts(a.drop_first(), b.drop_first(), c);
            }
            if a[0] == b[0] && a.drop_first() == b.drop_first() {
                assert(a =~= seq![a[0]] + a.drop_first());
                assert(b =~= seq![b[0]] + b.drop_first());
            }
        } else {
            lemma_sorts(a.drop_first(), b, c);
        }
    } else if b.len() == 0 {
        assert(a =~= b);
    }
}

/// Whether the names of a list ascend.
pub open spec fn names_ascend(list: Seq<(Seq<char>, Fine)>) -> bool {
    forall|i: int, j: int|
        #![trigger list[i], list[j]]
        0 <= i < j < list.len() ==> sorts_before(list[i].0, list[j].0)
}

proof fn lemma_with_offset(list: Seq<(Seq<char>, Fine)>, name: Seq<char>, value: Fine)
    requires
        names_ascend(list),
    ensures
        names_ascend(with_offset(list, name, value)),
        forall|e: (Seq<char>, Fine)| #[trigger]
            with_offset(list, name, value).contains(e) <==> e == (name, value) || (list.contains(e)
                && e.0 != name),
    decreases list.len(),
{
    let out = with_offset(list, name, value);
    if list.len() == 0 || sorts_before(list.last().0, name) {
        assert forall|i: int, j: int|
            #![trigger out[i], out[j]]
            0 <= i < j < out.len() implies sorts_before(out[i].0, out[j].0) by {
            assert(out[i] == list[i]);
            if j < list.len() {
                assert(out[j] == list[j]);
            } else if i < list.len() - 1 {
                assert(sorts_before(list[i].0, list[list.len() - 1].0));
                lemma_sorts(list[i].0, list.last().0, name);
            }
        }
        assert forall|e: (Seq<char>, Fine)| #[trigger] out.contains(e) <==> e == (name, value) || (
        list.contains(e) && e.0 != name) by {
            if list.contains(e) {
                let k = choose|k: int| 0 <= k < list.len() && list[k] == e;
                assert(out[k] == e);
                if k < list.len() - 1 {
                    assert(sorts_before(list[k].0, list[list.len() - 1].0));
                    lemma_sorts(list[k].0, list.last().0, name);
                }
                lemma_sorts(name, name, name);
            }
            if e == (name, value) {
                assert(out[list.len() as int] == e);
            }
            if out.contains(e) {
                let k = choose|k: int| 0 <= k < out.len() && out[k] == e;
                if k < list.len() {
                    assert(list[k] == e);
                }
            }
        }
    } else {
        let before = list.drop_last();
        let last = list.last();
        assert forall|i: int, j: int|
            #![trigger before[i], before[j]]
            0 <= i < j < before.len() implies sorts_before(before[i].0, before[j].0) by {
            assert(before[i] == list[i] && before[j] == list[j]);
        }
        assert forall|k: int| #![trigger before[k]] 0 <= k < before.len() implies sorts_before(
            before[k].0,
            last.0,
        ) by {
            assert(before[k] == list[k]);
            assert(sorts_before(list[k].0, list[list.len() - 1].0));
        }
        assert forall|e: (Seq<char>, Fine)| #[trigger] list.contains(e) <==> before.contains(e) || e
            == last by {
            if list.contains(e) {
                let k = choose|k: int| 0 <= k < list.len() && list[k] == e;
                if k < before.len() {
                    assert(before[k] == e);
                }
            }
            if before.contains(e) {
                let k = choose|k: int| 0 <= k < before.len() && before[k] == e;
                assert(list[k] == e);
            }
            if e == last {
                assert(list[list.len() - 1] == e);
            }
        }
        assert forall|e: (Seq<char>, Fine)| #[trigger] before.contains(e) implies sorts_before(
            e.0,
            last.0,
        ) by {
            let k = choose|k: int| 0 <= k < before.len() && before[k] == e;
            assert(sorts_before(before[k].0, last.0));
        }
        let put = if last.0 == name {
            before
        } else {
            with_offset(before, name, value)
        };
        let end = if last.0 == name {
            (name, value)
        } else {
            last
        };
        if last.0 != name {
            lemma_with_offset(before, name, value);
            lemma_sorts(last.0, name, name);
            assert(sorts_before(name, last.0));
        }
        assert(out == put.push(end));
        assert forall|k: int| #![trigger put[k]] 0 <= k < put.len() implies sorts_before(
            put[k].0,
            end.0,
        ) by {
            assert(put.contains(put[k]));
        }
        assert forall|i: int, j: int|
            #![trigger out[i], out[j]]
            0 <= i < j < out.len() implies sorts_before(out[i].0, out[j].0) by {
            assert(out[i] == put[i]);
            if j < put.len() {
                assert(out[j] == put[j]);
            }
        }
        assert forall|e: (Seq<char>, Fine)| #[trigger] out.contains(e) <==> e == (name, value) || (
        list.contains(e) && e.0 != name) by {
            lemma_sorts(e.0, e.0, e.0);
            if put.contains(e) {
                let k = choose|k: int| 0 <= k < put.len() && put[k] == e;
                assert(out[k] == e);
            }
            if e == end {
                assert(out[put.len() as int] == e);
            }
            if out.contains(e) {
                let k = choose|k: int| 0 <= k < out.len() && out[k] == e;
                if k < put.len() {
                    assert(put[k] == e);
                }
            }
            assert(out.contains(e) <==> put.contains(e) || e == end);
            assert(list.contains(e) <==> before.contains(e) || e == last);
        }
    }
}

/// Offsets are written by ascending name, each name once, with the value that it was
/// given last.
pub proof fn law_offsets_are_sorted_and_the_last_counts(
    offsets: Seq<(Seq<char>, Fine)>,
    e: (Seq<char>, Fine),
)
    ensures
        names_ascend(sorted_offsets(offsets)),
        sorted_offsets(offsets).contains(e) <==> exists|i: int|
            #![trigger offsets[i]]
            0 <= i < offsets.len() && offsets[i] == e && forall|j: int|
                #![trigger offsets[j]]
                i < j < offsets.len() ==> offsets[j].0 != e.0,
    decreases offsets.len(),
{
    if offsets.len() > 0 {
        let before = offsets.drop_last();
        let last = offsets[offsets.len() - 1];
        law_offsets_are_sorted_and_the_last_counts(before, e);
        lemma_with_offset(sorted_offsets(before), last.0, last.1);
        let out = sorted_offsets(offsets);
        assert(out == with_offset(sorted_offsets(before), last.0, last.1));
        assert(out.contains(e) <==> e == last || (sorted_offsets(before).contains(e) && e.0
            != last.0));
        if sorted_offsets(before).contains(e) && e.0 != last.0 {
            let i = choose|i: int|
                #![trigger before[i]]
                0 <= i < before.len() && before[i] == e && forall|j: int|
                    #![trigger before[j]]
                    i < j < before.len() ==> before[j].0 != e.0;
            assert(offsets[i] == e);
            assert forall|j: int| #![trigger offsets[j]] i < j < offsets.len() implies offsets[j].0
                != e.0 by {
                if j < before.len() {
                    assert(before[j] == offsets[j]);
                }
            }
        }
        if exists|i: int|
            #![trigger offsets[i]]
            0 <= i < offsets.len() && offsets[i] == e && forall|j: int|
                #![trigger offsets[j]]
                i < j < offsets.len() ==> offsets[j].0 != e.0 {
            let i = choose|i: int|
                #![trigger offsets[i]]
                0 <= i < offsets.len() && offsets[i] == e && forall|j: int|
                    #![trigger offsets[j]]
                    i < j < offsets.len() ==> offsets[j].0 != e.0;
            if i < before.len() {
                assert(offsets[offsets.len() - 1].0 != e.0);
                assert(before[i] == e);
                assert forall|j: int| #![trigger before[j]] i < j < before.len() implies before[j].0
                    != e.0 by {
                    assert(before[j] == offsets[j]);
                }
            }
        }
    }
}

/// The members of an object stand in order, each a name and its value, with commas
/// between.
pub proof fn law_members_are_listed(list: Seq<(Seq<char>, Fine)>)
    ensures
        members_json(list) == crate::text::joined(
            list.map_values(|e: (Seq<char>, Fine)| json_string(e.0) + ":"@ + fine_json(e.1)),
            ","@,
        ),
    decreases list.len(),
{
    let all = list.map_values(|e: (Seq<char>, Fine)| json_string(e.0) + ":"@ + fine_json(e.1));
    if list.len() == 0 {
        crate::text::law_joined_parts(Seq::empty(), Seq::empty(), ","@);
        assert(all =~= Seq::empty());
    } else {
        let before = list.drop_last();
        law_members_are_listed(before);
        let head = before.map_values(
            |e: (Seq<char>, Fine)| json_string(e.0) + ":"@ + fine_json(e.1),
        );
        let member = json_string(list.last().0) + ":"@ + fine_json(list.last().1);
        assert(all =~= head.push(member));
        crate::text::law_joined_parts(head, member, ","@);
        if list.len() == 1 {
            assert(all =~= seq![member]);
        }
    }
}

} // verus!
