//! Frame-substrate aggregation: which frames of the sidecar's grid a unit's
//! boundary features and prosody summaries are taken over, and the pitch
//! samples that its medians fall on. Samples are the bit patterns of 32-bit
//! floats; times are nanoseconds, and the hop of the grid is finer.
use super::npz::samples;
use crate::fine::{Fine, ATTO_PER_NANO};
use vstd::arithmetic::div_mod::{
    lemma_basic_div, lemma_div_nonincreasing, lemma_div_pos_is_pos, lemma_fundamental_div_mod,
    lemma_mod_bound,
};
use vstd::prelude::*;

verus! {

/// Dimensionality of the MFCC vectors in the frame substrate.
pub const MFCC_DIM: usize = 13;

/// Boundary features average over at most this many in-unit frames per end.
pub const BOUNDARY_FRAMES: usize = 3;

/// How far a frame's center may be off a time and still count as on it: a
/// nanosecond, in quintillionths.
pub const CENTER_EPS: i128 = 1_000_000_000;

/// The three frame arrays on one grid: frame `i` is centered at `i * hop`.
#[derive(Debug)]
pub struct ProsodyData {
    pub hop: Fine,
    /// Pitch in Hz; 0 for unvoiced.
    pub f0: Vec<u32>,
    pub rms_db: Vec<u32>,
    /// Frame-major, `n_frames x MFCC_DIM`.
    pub mfcc: Vec<u32>,
}

impl ProsodyData {
    /// How many frames there are.
    pub fn n_frames(&self) -> (n: usize)
        ensures
            n == self.f0@.len(),
    {
        self.f0.len()
    }
}

/// The first of `n` frames that is centered at or after `t` (within the
/// tolerance), or `n`.
pub open spec fn frame_bound(t: int, hop: int, n: int) -> int {
    let first = if t <= CENTER_EPS {
        0
    } else {
        (t - CENTER_EPS - 1) / hop + 1
    };
    if first < n {
        first
    } else {
        n
    }
}

/// The frame of `n` nearest to a unit's midpoint.
pub open spec fn mid_frame(t_start: int, t_end: int, hop: int, n: int) -> int {
    let nearest = if t_start + t_end + hop <= 0 {
        0
    } else {
        (t_start + t_end + hop) / (2 * hop)
    };
    if nearest < n - 1 {
        nearest
    } else {
        n - 1
    }
}

/// `frame_bound` on a grid of any hop. Without one, every frame is centered at
/// zero; a negative one runs the other way; one that is no number, or not
/// finite, bounds nothing.
pub open spec fn bound_at(t: int, hop: Fine, n: int) -> int {
    let t = t * ATTO_PER_NANO;
    match hop {
        Fine::Atto(h) => if h > 0 {
            frame_bound(t, h as int, n)
        } else if h < 0 {
            frame_bound(2 * CENTER_EPS - t, -h, n)
        } else if t > CENTER_EPS {
            n
        } else {
            0
        },
        _ => 0,
    }
}

/// `mid_frame` on a grid of any hop.
pub open spec fn mid_at(t_start: int, t_end: int, hop: Fine, n: int) -> int {
    let (t_start, t_end) = (t_start * ATTO_PER_NANO, t_end * ATTO_PER_NANO);
    match hop {
        Fine::Atto(h) => if h > 0 {
            mid_frame(t_start, t_end, h as int, n)
        } else if h < 0 {
            mid_frame(-t_start, -t_end, -h, n)
        } else if t_start + t_end > 0 {
            n - 1
        } else {
            0
        },
        _ => 0,
    }
}

/// A unit's frames, as a range: those centered in `[t_start, t_end)`, or, where
/// there is none, the single frame nearest to its midpoint.
pub open spec fn unit_range(t_start: int, t_end: int, hop: Fine, n: int) -> (int, int) {
    let first = bound_at(t_start, hop, n);
    let last = bound_at(t_end, hop, n);
    if first < last {
        (first, last)
    } else {
        let mid = mid_at(t_start, t_end, hop, n);
        (mid, mid + 1)
    }
}

/// A pitch sample above zero.
pub open spec fn voiced_bits(bits: u32) -> bool {
    0 < bits <= 0x7f80_0000
}

/// The voiced frames of a range, ascending.
pub open spec fn voiced_in(f0: Seq<u32>, from: int, to: int) -> Seq<int>
    decreases to - from,
{
    if to <= from {
        Seq::empty()
    } else if voiced_bits(f0[to - 1]) {
        voiced_in(f0, from, to - 1).push(to - 1)
    } else {
        voiced_in(f0, from, to - 1)
    }
}

/// A sample put into an ascending sequence. Positive floats order as their bit
/// patterns do.
pub open spec fn with_sample(v: Seq<u32>, x: u32) -> Seq<u32>
    decreases v.len(),
{
    if v.len() == 0 || v.last() <= x {
        v.push(x)
    } else {
        with_sample(v.drop_last(), x).push(v.last())
    }
}

/// The voiced pitch samples of a range, ascending.
pub open spec fn pitches(f0: Seq<u32>, from: int, to: int) -> Seq<u32>
    decreases to - from,
{
    if to <= from {
        Seq::empty()
    } else if voiced_bits(f0[to - 1]) {
        with_sample(pitches(f0, from, to - 1), f0[to - 1])
    } else {
        pitches(f0, from, to - 1)
    }
}

/// The two middle samples of an ascending sequence, the same one twice where
/// the count is odd: the median is their mean.
pub open spec fn middle(v: Seq<u32>) -> Option<(u32, u32)> {
    let mid = v.len() as int / 2;
    if v.len() == 0 {
        None
    } else if v.len() % 2 == 1 {
        Some((v[mid], v[mid]))
    } else {
        Some((v[mid - 1], v[mid]))
    }
}

/// The frames that one unit's features are taken over.
#[derive(Debug)]
pub struct UnitFrames {
    /// The unit's frames, `from..to`.
    pub from: usize,
    pub to: usize,
    /// The boundary frames: `from..head_end` and `tail_start..to`.
    pub head_end: usize,
    pub tail_start: usize,
    /// The voiced frames of the unit.
    pub voiced: Vec<usize>,
    /// The pitch samples that the medians over the voiced frames of the head,
    /// of the tail and of the unit are the means of; an unvoiced boundary has
    /// none, not a pitch from further inside.
    pub f0_head: Option<(u32, u32)>,
    pub f0_tail: Option<(u32, u32)>,
    pub f0_median: Option<(u32, u32)>,
}

/// Frame indices as integers.
pub open spec fn frame_views(v: Seq<usize>) -> Seq<int> {
    Seq::new(v.len(), |i: int| v[i] as int)
}

/// What a unit's frames are.
pub open spec fn frames_of(
    u: UnitFrames,
    f0: Seq<u32>,
    hop: Fine,
    t_start: int,
    t_end: int,
) -> bool {
    let (from, to) = unit_range(t_start, t_end, hop, f0.len() as int);
    let k = if to - from < BOUNDARY_FRAMES {
        to - from
    } else {
        BOUNDARY_FRAMES as int
    };
    &&& u.from == from
    &&& u.to == to
    &&& u.head_end == from + k
    &&& u.tail_start == to - k
    &&& frame_views(u.voiced@) == voiced_in(f0, from, to)
    &&& u.f0_head == middle(pitches(f0, from, from + k))
    &&& u.f0_tail == middle(pitches(f0, to - k, to))
    &&& u.f0_median == middle(pitches(f0, from, to))
}

fn bound_frame(t: i128, hop: i128, n: usize) -> (i: usize)
    requires
        0 < hop,
        t <= 0x4000_0000_0000_0000_0000_0000_0000_0000,
    ensures
        i == frame_bound(t as int, hop as int, n as int),
        i <= n,
{
    if t <= CENTER_EPS {
        return 0;
    }
    let before: i128 = (t - CENTER_EPS - 1) / hop;
    proof {
        lemma_div_pos_is_pos(t - CENTER_EPS - 1, hop as int);
        lemma_div_nonincreasing(t - CENTER_EPS - 1, hop as int);
    }
    if before < n as i128 {
        if before + 1 < n as i128 {
            (before + 1) as usize
        } else {
            n
        }
    } else {
        n
    }
}

fn middle_frame(t_start: i128, t_end: i128, hop: i128, n: usize) -> (i: usize)
    requires
        0 < hop,
        -0x1000_0000_0000_0000_0000_0000_0000_0000 <= t_start
            <= 0x1000_0000_0000_0000_0000_0000_0000_0000,
        -0x1000_0000_0000_0000_0000_0000_0000_0000 <= t_end
            <= 0x1000_0000_0000_0000_0000_0000_0000_0000,
        n > 0,
    ensures
        i == mid_frame(t_start as int, t_end as int, hop as int, n as int),
        i < n,
{
    let twice: i128 = t_start + t_end;
    if hop > twice {
        proof {
            if twice + hop > 0 {
                lemma_basic_div(twice + hop, 2 * hop);
            }
        }
        return 0;
    }
    let nearest: i128 = (twice + hop) / (2 * hop);
    proof {
        lemma_div_pos_is_pos(twice + hop, 2 * hop);
    }
    if nearest < n as i128 - 1 {
        nearest as usize
    } else {
        n - 1
    }
}

fn find_bound(t: i64, hop: Fine, n: usize) -> (i: usize)
    ensures
        i == bound_at(t as int, hop, n as int),
        i <= n,
{
    let t: i128 = t as i128 * ATTO_PER_NANO;
    match hop {
        Fine::Atto(h) => if h > 0 {
            bound_frame(t, h, n)
        } else if h < 0 {
            let t: i128 = 2 * CENTER_EPS - t;
            proof {
                if h == i128::MIN && t > CENTER_EPS {
                    lemma_basic_div(t - CENTER_EPS - 1, -h);
                    lemma_basic_div(t - CENTER_EPS - 1, i128::MAX as int);
                }
            }
            bound_frame(t, opposite_hop(h), n)
        } else if t > CENTER_EPS {
            n
        } else {
            0
        },
        _ => 0,
    }
}

fn opposite_hop(h: i128) -> (size: i128)
    requires
        h < 0,
    ensures
        size == if h == i128::MIN {
            i128::MAX as int
        } else {
            -h
        },
{
    if h == i128::MIN {
        i128::MAX
    } else {
        -h
    }
}

fn find_middle(t_start: i64, t_end: i64, hop: Fine, n: usize) -> (i: usize)
    requires
        n > 0,
    ensures
        i == mid_at(t_start as int, t_end as int, hop, n as int),
        i < n,
{
    let (t_start, t_end): (i128, i128) = (
        t_start as i128 * ATTO_PER_NANO,
        t_end as i128 * ATTO_PER_NANO,
    );
    match hop {
        Fine::Atto(h) => if h > 0 {
            middle_frame(t_start, t_end, h, n)
        } else if h < 0 {
            proof {
                if h == i128::MIN {
                    lemma_basic_div(-t_start - t_end - h, -2 * h);
                    lemma_basic_div(-t_start - t_end + i128::MAX, 2 * i128::MAX);
                }
            }
            middle_frame(-t_start, -t_end, opposite_hop(h), n)
        } else if t_start + t_end > 0 {
            n - 1
        } else {
            0
        },
        _ => 0,
    }
}

fn sorted_pitches(f0: &Vec<u32>, from: usize, to: usize) -> (out: Vec<u32>)
    requires
        from <= to <= f0@.len(),
    ensures
        out@ == pitches(f0@, from as int, to as int),
{
    let mut out: Vec<u32> = Vec::new();
    let mut i: usize = from;
    while i < to
        invariant
            from <= i <= to <= f0@.len(),
            out@ == pitches(f0@, from as int, i as int),
        decreases to - i,
    {
        let x: u32 = f0[i];
        if 0 < x && x <= 0x7f80_0000 {
            let ghost before = out@;
            let mut k: usize = out.len();
            proof {
                assert(before.take(k as int) =~= before);
                assert(with_sample(before, x) + before.skip(k as int) =~= with_sample(before, x));
            }
            while k > 0 && out[k - 1] > x
                invariant
                    k <= out@.len(),
                    out@ == before,
                    with_sample(before.take(k as int), x) + before.skip(k as int) == with_sample(
                        before,
                        x,
                    ),
                decreases k,
            {
                proof {
                    let now = before.take(k as int);
                    assert(now.last() == before[k - 1]);
                    assert(now.drop_last() =~= before.take(k - 1));
                    assert(with_sample(now, x) + before.skip(k as int) =~= with_sample(
                        before.take(k - 1),
                        x,
                    ) + before.skip(k - 1));
                }
                k = k - 1;
            }
            proof {
                if k > 0 {
                    assert(before.take(k as int).last() == before[k - 1]);
                }
                assert(with_sample(before.take(k as int), x) =~= before.take(k as int).push(x));
            }
            out.insert(k, x);
            assert(out@ =~= before.take(k as int).push(x) + before.skip(k as int));
        }
        i = i + 1;
    }
    out
}

/// The samples that the median of a range's voiced pitch is the mean of; none
/// where the range is unvoiced.
pub fn voiced_f0_median(f0: &Vec<u32>, from: usize, to: usize) -> (r: Option<(u32, u32)>)
    requires
        from <= to <= f0@.len(),
    ensures
        r == middle(pitches(f0@, from as int, to as int)),
{
    let v: Vec<u32> = sorted_pitches(f0, from, to);
    if v.len() == 0 {
        return None;
    }
    let mid: usize = v.len() / 2;
    if v.len() % 2 == 1 {
        Some((v[mid], v[mid]))
    } else {
        Some((v[mid - 1], v[mid]))
    }
}

/// The frames that the features of the unit `[t_start, t_end)` are taken over.
pub fn unit_frames(f0: &Vec<u32>, hop: Fine, t_start: i64, t_end: i64) -> (u: UnitFrames)
    requires
        f0@.len() > 0,
    ensures
        frames_of(u, f0@, hop, t_start as int, t_end as int),
        u.from < u.to <= f0@.len(),
{
    let n: usize = f0.len();
    let first: usize = find_bound(t_start, hop, n);
    let last: usize = find_bound(t_end, hop, n);
    let (from, to): (usize, usize) = if first < last {
        (first, last)
    } else {
        let mid: usize = find_middle(t_start, t_end, hop, n);
        (mid, mid + 1)
    };
    let k: usize = if to - from < BOUNDARY_FRAMES {
        to - from
    } else {
        BOUNDARY_FRAMES
    };
    let mut voiced: Vec<usize> = Vec::new();
    let mut i: usize = from;
    assert(frame_views(voiced@) =~= Seq::empty());
    while i < to
        invariant
            from <= i <= to <= f0@.len(),
            frame_views(voiced@) == voiced_in(f0@, from as int, i as int),
        decreases to - i,
    {
        let ghost before = frame_views(voiced@);
        if 0 < f0[i] && f0[i] <= 0x7f80_0000 {
            voiced.push(i);
            assert(frame_views(voiced@) =~= before.push(i as int));
        }
        i = i + 1;
    }
    UnitFrames {
        from,
        to,
        head_end: from + k,
        tail_start: to - k,
        voiced,
        f0_head: voiced_f0_median(f0, from, from + k),
        f0_tail: voiced_f0_median(f0, to - k, to),
        f0_median: voiced_f0_median(f0, from, to),
    }
}

/// Frame membership: a frame lies between the bounds of a unit iff its center
/// is in `[t_start, t_end)`, within the tolerance.
pub proof fn law_frame_membership(t_start: int, t_end: int, hop: int, n: int, i: int)
    requires
        hop > 0,
        0 <= i < n,
    ensures
        frame_bound(t_start, hop, n) <= i < frame_bound(t_end, hop, n) <==> t_start - CENTER_EPS <= i
            * hop < t_end - CENTER_EPS,
{
    lemma_frame_bound(t_start, hop, n, i);
    lemma_frame_bound(t_end, hop, n, i);
}

proof fn lemma_frame_bound(t: int, hop: int, n: int, i: int)
    requires
        hop > 0,
        0 <= i < n,
    ensures
        frame_bound(t, hop, n) <= i <==> t - CENTER_EPS <= i * hop,
{
    assert(i * hop >= 0) by (nonlinear_arith)
        requires
            i >= 0,
            hop > 0,
    ;
    if t > CENTER_EPS {
        let x = t - CENTER_EPS - 1;
        let q = x / hop + 1;
        lemma_fundamental_div_mod(x, hop);
        assert(hop * q == hop * (x / hop) + hop) by (nonlinear_arith)
            requires
                q == x / hop + 1,
        ;
        lemma_mod_bound(x, hop);
        if q <= i {
            assert(hop * q <= i * hop) by (nonlinear_arith)
                requires
                    q <= i,
                    hop > 0,
            ;
        } else {
            assert(hop * (i + 1) <= hop * q) by (nonlinear_arith)
                requires
                    i + 1 <= q,
                    hop > 0,
            ;
            assert(hop * (i + 1) == i * hop + hop) by (nonlinear_arith);
        }
    }
}

/// The little-endian bytes of a sample.
pub open spec fn sample_bytes(x: u32) -> Seq<u8> {
    seq![
        (x % 256) as u8,
        (x / 256 % 256) as u8,
        (x / 65536 % 256) as u8,
        (x / 16777216) as u8,
    ]
}

/// The little-endian bytes of a list of samples.
pub open spec fn blob(xs: Seq<u32>) -> Seq<u8>
    decreases xs.len(),
{
    if xs.len() == 0 {
        Seq::empty()
    } else {
        blob(xs.drop_last()) + sample_bytes(xs.last())
    }
}

/// Little-endian float32 encoding, for the database's feature columns.
pub fn f32_blob(xs: &Vec<u32>) -> (out: Vec<u8>)
    ensures
        out@ == blob(xs@),
{
    let mut out: Vec<u8> = Vec::new();
    let mut i: usize = 0;
    assert(xs@.take(0) =~= Seq::empty());
    while i < xs.len()
        invariant
            i <= xs@.len(),
            out@ == blob(xs@.take(i as int)),
        decreases xs@.len() - i,
    {
        assert(xs@.take(i + 1).drop_last() =~= xs@.take(i as int));
        let x: u32 = xs[i];
        let ghost before = out@;
        out.push((x % 256) as u8);
        out.push((x / 256 % 256) as u8);
        out.push((x / 65536 % 256) as u8);
        out.push((x / 16777216) as u8);
        assert(out@ =~= before + sample_bytes(x));
        i = i + 1;
    }
    assert(xs@.take(i as int) =~= xs@);
    out
}

/// What is stored reads back: the samples of a blob are the samples it was
/// made of.
pub proof fn law_blob_round_trip(xs: Seq<u32>)
    ensures
        blob(xs).len() == 4 * xs.len(),
        samples(blob(xs)) == xs,
    decreases xs.len(),
{
    if xs.len() > 0 {
        let before = xs.drop_last();
        law_blob_round_trip(before);
        let (a, b) = (blob(before), blob(xs));
        let m = before.len() as int;
        let x = xs.last();
        assert forall|k: int| 0 <= k < xs.len() implies #[trigger] samples(b)[k] == xs[k] by {
            if k < m {
                assert(samples(a)[k] == before[k]);
                assert(b[4 * k] == a[4 * k]);
                assert(b[4 * k + 1] == a[4 * k + 1]);
                assert(b[4 * k + 2] == a[4 * k + 2]);
                assert(b[4 * k + 3] == a[4 * k + 3]);
            } else {
                let s = sample_bytes(x);
                assert(b[4 * m] == s[0]);
                assert(b[4 * m + 1] == s[1]);
                assert(b[4 * m + 2] == s[2]);
                assert(b[4 * m + 3] == s[3]);
            }
        }
        assert(samples(b) =~= xs);
    } else {
        assert(samples(blob(xs)) =~= xs);
    }
}

// ---------------------------------------------------------------------- laws

/// A frame is among a unit's frames iff its center lies in the unit, to a
/// billionth of a second, where any does; where none does, the unit has one frame,
/// and no frame is centered nearer to its midpoint.
pub proof fn law_units_take_the_frames_centered_in_them(
    u: UnitFrames,
    f0: Seq<u32>,
    hop: i128,
    t_start: int,
    t_end: int,
    i: int,
)
    requires
        hop > 0,
        frames_of(u, f0, Fine::Atto(hop), t_start, t_end),
        0 <= i < f0.len(),
    ensures
        ({
            let (start, end) = (t_start * 1_000_000_000, t_end * 1_000_000_000);
            let centered = start - 1_000_000_000 <= i * hop < end - 1_000_000_000;
            &&& centered ==> u.from <= i < u.to
            &&& u.from <= i < u.to ==> centered || u.to == u.from + 1
            &&& !centered && u.from == i && u.to == i + 1 && 0 <= start + end + hop
                ==> forall|j: int|
                0 <= j < f0.len() ==> gap(2 * i * hop, start + end) <= #[trigger] gap(
                    2 * j * hop,
                    start + end,
                )
        }),
{
    let n = f0.len() as int;
    let (start, end) = (t_start * 1_000_000_000, t_end * 1_000_000_000);
    let h = hop as int;
    law_frame_membership(start, end, h, n, i);
    let centered = start - 1_000_000_000 <= i * hop < end - 1_000_000_000;
    if !centered && u.from == i && u.to == i + 1 && 0 <= start + end + h {
        assert(i == mid_frame(start, end, h, n));
        assert forall|j: int| 0 <= j < f0.len() implies gap(2 * i * h, start + end)
            <= #[trigger] gap(2 * j * h, start + end) by {
            lemma_mid_frame(start, end, h, n, j);
        }
    }
}

/// The distance of two integers.
pub open spec fn gap(a: int, b: int) -> int {
    if a < b {
        b - a
    } else {
        a - b
    }
}

proof fn lemma_mid_frame(start: int, end: int, hop: int, n: int, j: int)
    requires
        hop > 0,
        0 <= j < n,
        0 <= start + end + hop,
    ensures
        gap(2 * mid_frame(start, end, hop, n) * hop, start + end) <= gap(2 * j * hop, start + end),
{
    let x = start + end + hop;
    let d = 2 * hop;
    let q = if x <= 0 {
        0
    } else {
        x / d
    };
    lemma_fundamental_div_mod(x, d);
    lemma_mod_bound(x, d);
    if x <= 0 {
        assert(x == 0);
        lemma_basic_div(0, d);
    }
    assert(d * q <= x < d * q + d);
    let m = mid_frame(start, end, hop, n);
    assert(2 * m * hop == d * m) by (nonlinear_arith)
        requires
            d == 2 * hop,
    ;
    assert(2 * j * hop == d * j) by (nonlinear_arith)
        requires
            d == 2 * hop,
    ;
    if m == q {
        if j < q {
            assert(d * j <= d * q - d) by (nonlinear_arith)
                requires
                    j + 1 <= q,
                    d > 0,
            ;
        } else if j > q {
            assert(d * j >= d * q + d) by (nonlinear_arith)
                requires
                    q + 1 <= j,
                    d > 0,
            ;
        }
    } else {
        assert(m == n - 1 && m < q);
        assert(d * m <= d * q - d) by (nonlinear_arith)
            requires
                m + 1 <= q,
                d > 0,
        ;
        assert(d * j <= d * m) by (nonlinear_arith)
            requires
                j <= m,
                d > 0,
        ;
    }
}

/// A unit's boundaries are its first and its last three frames, or all of them
/// where it has fewer.
pub proof fn law_boundaries_are_three_frames(
    u: UnitFrames,
    f0: Seq<u32>,
    hop: Fine,
    t_start: int,
    t_end: int,
)
    requires
        frames_of(u, f0, hop, t_start, t_end),
    ensures
        u.to - u.from >= 3 ==> u.head_end == u.from + 3 && u.tail_start == u.to - 3,
        u.to - u.from < 3 ==> u.head_end == u.to && u.tail_start == u.from,
{
}

/// The voiced frames of a unit are those of it whose pitch is above zero, in
/// order.
pub proof fn law_voiced_frames_have_a_pitch(f0: Seq<u32>, from: int, to: int)
    requires
        from <= to,
    ensures
        forall|i: int|
            #![trigger f0[i]]
            voiced_in(f0, from, to).contains(i) <==> (from <= i < to && 0 < f0[i] <= 0x7f80_0000),
        forall|a: int, b: int|
            #![trigger voiced_in(f0, from, to)[a], voiced_in(f0, from, to)[b]]
            0 <= a < b < voiced_in(f0, from, to).len() ==> voiced_in(f0, from, to)[a] < voiced_in(
                f0,
                from,
                to,
            )[b],
    decreases to - from,
{
    if from < to {
        law_voiced_frames_have_a_pitch(f0, from, to - 1);
        let (was, now) = (voiced_in(f0, from, to - 1), voiced_in(f0, from, to));
        assert forall|i: int|
            #![trigger f0[i]]
            now.contains(i) <==> (from <= i < to && 0 < f0[i] <= 0x7f80_0000) by {
            assert(was.contains(i) <==> (from <= i < to - 1 && 0 < f0[i] <= 0x7f80_0000));
            if was.contains(i) {
                let k = choose|k: int| 0 <= k < was.len() && was[k] == i;
                assert(now[k] == i);
            }
            if now.contains(i) {
                let k = choose|k: int| 0 <= k < now.len() && now[k] == i;
                if k < was.len() {
                    assert(was[k] == i);
                }
            }
            if i == to - 1 && 0 < f0[i] <= 0x7f80_0000 {
                assert(now[was.len() as int] == i);
            }
        }
        assert forall|a: int| 0 <= a < was.len() implies #[trigger] was[a] < to - 1 by {
            assert(was.contains(was[a]));
            let _ = f0[was[a]];
        }
        assert forall|a: int, b: int|
            #![trigger now[a], now[b]]
            0 <= a < b < now.len() implies now[a] < now[b] by {
            assert(now[a] == was[a]);
            if b < was.len() {
                assert(now[b] == was[b]);
            }
        }
    }
}

/// Whether samples ascend.
pub open spec fn ascending(v: Seq<u32>) -> bool {
    forall|a: int, b: int| #![trigger v[a], v[b]] 0 <= a < b < v.len() ==> v[a] <= v[b]
}

proof fn lemma_with_sample(v: Seq<u32>, x: u32)
    requires
        ascending(v),
    ensures
        ascending(with_sample(v, x)),
        with_sample(v, x).to_multiset() == v.to_multiset().insert(x),
        with_sample(v, x).len() == v.len() + 1,
        forall|a: int|
            #![trigger with_sample(v, x)[a]]
            0 <= a < with_sample(v, x).len() ==> with_sample(v, x)[a] == x || v.contains(
                with_sample(v, x)[a],
            ),
    decreases v.len(),
{
    broadcast use vstd::seq_lib::group_to_multiset_ensures;

    if v.len() == 0 || v.last() <= x {
        let w = v.push(x);
        assert forall|a: int, b: int| #![trigger w[a], w[b]] 0 <= a < b < w.len() implies w[a]
            <= w[b] by {
            assert(w[a] == v[a]);
            if b < v.len() {
                assert(w[b] == v[b]);
            } else {
                assert(v[a] <= v[v.len() - 1]);
            }
        }
        assert forall|a: int| #![trigger w[a]] 0 <= a < w.len() implies w[a] == x || v.contains(
            w[a],
        ) by {
            if a < v.len() {
                assert(v[a] == w[a]);
            }
        }
    } else {
        let before = v.drop_last();
        assert forall|a: int, b: int|
            #![trigger before[a], before[b]]
            0 <= a < b < before.len() implies before[a] <= before[b] by {
            assert(before[a] == v[a] && before[b] == v[b]);
        }
        lemma_with_sample(before, x);
        let put = with_sample(before, x);
        let w = put.push(v.last());
        assert(v =~= before.push(v.last()));
        assert(v.to_multiset() =~= before.to_multiset().insert(v.last()));
        assert(w.to_multiset() =~= v.to_multiset().insert(x));
        assert forall|a: int| #![trigger before[a]] 0 <= a < before.len() implies before[a]
            <= v.last() by {
            assert(v[a] <= v[v.len() - 1]);
        }
        assert forall|a: int| #![trigger put[a]] 0 <= a < put.len() implies put[a]
            <= v.last() by {
            if put[a] != x {
                let k = choose|k: int| 0 <= k < before.len() && before[k] == put[a];
                assert(before[k] <= v.last());
            }
        }
        assert forall|a: int, b: int| #![trigger w[a], w[b]] 0 <= a < b < w.len() implies w[a]
            <= w[b] by {
            assert(w[a] == put[a]);
            if b < put.len() {
                assert(w[b] == put[b]);
            }
        }
        assert forall|a: int| #![trigger w[a]] 0 <= a < w.len() implies w[a] == x || v.contains(
            w[a],
        ) by {
            if a < put.len() {
                assert(w[a] == put[a]);
                if put[a] != x {
                    let k = choose|k: int| 0 <= k < before.len() && before[k] == put[a];
                    assert(v[k] == put[a]);
                }
            } else {
                assert(v[v.len() - 1] == w[a]);
            }
        }
    }
}

/// The samples of a range that are above zero.
pub open spec fn pitched(f0: Seq<u32>, from: int, to: int) -> Seq<u32> {
    f0.subrange(from, to).filter(|x: u32| 0 < x <= 0x7f80_0000)
}

/// The pitches of a range are its samples above zero, each as often as it occurs,
/// in ascending order.
pub proof fn law_pitches_are_the_voiced_samples(f0: Seq<u32>, from: int, to: int)
    requires
        0 <= from <= to <= f0.len(),
    ensures
        ascending(pitches(f0, from, to)),
        pitches(f0, from, to).to_multiset() == pitched(f0, from, to).to_multiset(),
    decreases to - from,
{
    broadcast use vstd::seq_lib::group_to_multiset_ensures;

    let sub = f0.subrange(from, to);
    reveal(Seq::filter);
    if from == to {
        assert(pitched(f0, from, to) =~= Seq::empty());
    } else {
        law_pitches_are_the_voiced_samples(f0, from, to - 1);
        assert(sub.drop_last() =~= f0.subrange(from, to - 1));
        assert(sub.last() == f0[to - 1]);
        if 0 < f0[to - 1] <= 0x7f80_0000 {
            lemma_with_sample(pitches(f0, from, to - 1), f0[to - 1]);
            assert(pitched(f0, from, to) =~= pitched(f0, from, to - 1).push(f0[to - 1]));
        } else {
            assert(pitched(f0, from, to) =~= pitched(f0, from, to - 1));
        }
    }
}

/// The middle of samples leaves as many before it as after it: it is the sample
/// there, or the two that stand next to each other there.
pub proof fn law_the_middle_is_in_the_middle(v: Seq<u32>) -> (i: int)
    ensures
        match middle(v) {
            Some((a, b)) => {
                let j = v.len() - 1 - i;
                0 <= i <= j < v.len() && j <= i + 1 && a == v[i] && b == v[j]
            },
            None => v.len() == 0,
        },
{
    (v.len() - 1) / 2
}

/// Samples are stored with their lowest byte first.
pub proof fn law_samples_are_little_endian(bytes: Seq<u8>, k: int)
    requires
        0 <= 4 * k,
        4 * k + 4 <= bytes.len(),
    ensures
        samples(bytes)[k] == bytes[4 * k] + 256 * bytes[4 * k + 1] + 65536 * bytes[4 * k + 2]
            + 16777216 * bytes[4 * k + 3],
{
}

/// Where frames begin to count on any grid: forward from the first that is centered
/// no earlier, backward from the first that is centered no later, and all or none of
/// them where they are centered at zero.
pub proof fn law_bounds_on_any_grid(t: int, hop: i128, n: int, i: int)
    requires
        0 <= i < n,
        hop > i128::MIN,
    ensures
        ({
            let bound = bound_at(t, Fine::Atto(hop), n);
            let at = t * 1_000_000_000 - 1_000_000_000;
            &&& hop > 0 ==> (bound <= i <==> at <= i * hop)
            &&& hop < 0 ==> (bound <= i <==> i * hop <= at)
            &&& hop == 0 ==> (bound <= i <==> at <= 0)
        }),
{
    let x = t * 1_000_000_000;
    if hop > 0 {
        lemma_frame_bound(x, hop as int, n, i);
    } else if hop < 0 {
        lemma_frame_bound(2 * CENTER_EPS - x, -hop, n, i);
        assert(i * (-hop) == -(i * hop)) by (nonlinear_arith);
    }
}

} // verus!
