//! The ffmpeg render target: a two-stage plan over the shared elision
//! pre-pass. Stage 1 extracts each planned segment frame-exactly from its
//! all-intra master into a uniform ProRes 422 HQ + pcm_s24le intermediate;
//! stage 2 concatenates the intermediates into the final encode.
//!
//! Frame quantization is one algorithm, with audio as master: audio cuts are
//! authoritative; segment k gets `round(T_k * fps) - round(T_(k-1) * fps)`
//! video frames (cumulative rounding is the error diffusion), starting at
//! master frame `floor(t_start * fps + 1e-9)`. Frames are selected by count,
//! never by time.
use super::compile::{
    clip_pieces, edit_fault, edit_segments, law_contiguous_clips_share_a_segment,
    law_segments_follow_edit_order, law_segments_play_their_clips, law_valid_clips_play,
    law_valid_edits_compile, lemma_boundaries_fit, lemma_clip_has_segment, lemma_no_fault,
    lemma_segment_one_source, shares_segment,
    plan_preview,
    segment_views, segments_proper, total,
    PlannedSegment, PreviewPlan, SegmentView,
};
use super::{
    clip_views, info_views, ClipView, CompileFault, Edl, EdlCompileError, SourceInfoView, SourceMap,
    Transform,
};
use crate::number::{
    clamp, clamped, fmt_ratio, fmt_time, fps_text, six_decimals, time_text, Fps, Rate,
};
use crate::path::{extension, extension_of, join_path, joined_path};
use crate::span::SourceId;
use crate::text::{
    begins, dec, framed, holds_text, law_numerals_read_back, law_padded_digits_read_back,
    lowercase, lowercased, padded, push_arg, push_dec, push_padded, push_signed, same, signed_dec,
    texts, value,
};
use vstd::arithmetic::div_mod::{
    lemma_div_is_ordered, lemma_fundamental_div_mod, lemma_fundamental_div_mod_converse,
};
use vstd::prelude::*;
use vstd::string::StringExecFns;

verus! {

broadcast use vstd::std_specs::hash::group_hash_axioms;

/// Output audio: 48 kHz stereo.
pub const AUDIO_RATE: u32 = 48_000;

/// How far before a segment's audio cut the audio input seek lands, in
/// nanoseconds. The seek only positions the demuxer; `atrim` then cuts
/// sample-exactly in seek-shifted time.
pub const AUDIO_SEEK_LEAD: i64 = 1_000_000_000;

/// The render output profile.
#[derive(Debug, Clone, Copy, PartialEq, Eq, Structural)]
pub struct OutputProfile {
    pub width: u32,
    pub height: u32,
    pub fps: Fps,
}

/// One video-bearing source's properties, the input to profile selection.
#[derive(Debug, Clone, Copy, PartialEq, Eq, Structural)]
pub struct VideoProps {
    pub width: u32,
    pub height: u32,
    pub fps: Rate,
}

/// Whether `b` is the better profile source: a larger display area, then a
/// larger width, then a higher rate.
pub open spec fn outranks(b: VideoProps, a: VideoProps) -> bool {
    let area_a = a.width * a.height;
    let area_b = b.width * b.height;
    ||| area_a < area_b
    ||| area_a == area_b && a.width < b.width
    ||| area_a == area_b && a.width == b.width && a.fps.num() * b.fps.den() < b.fps.num()
        * a.fps.den()
}

fn better(b: &VideoProps, a: &VideoProps) -> (r: bool)
    ensures
        r == outranks(*b, *a),
        a.fps.positive(),
        b.fps.positive(),
{
    proof {
        assert(a.width * a.height <= u32::MAX * u32::MAX) by (nonlinear_arith)
            requires
                a.width <= u32::MAX,
                a.height <= u32::MAX,
        ;
        assert(b.width * b.height <= u32::MAX * u32::MAX) by (nonlinear_arith)
            requires
                b.width <= u32::MAX,
                b.height <= u32::MAX,
        ;
    }
    let area_a: u64 = a.width as u64 * a.height as u64;
    let area_b: u64 = b.width as u64 * b.height as u64;
    let (num_a, den_a): (u32, u32) = a.fps.terms();
    let (num_b, den_b): (u32, u32) = b.fps.terms();
    proof {
        assert(num_a * den_b <= u32::MAX * u32::MAX) by (nonlinear_arith)
            requires
                num_a <= u32::MAX,
                den_b <= u32::MAX,
        ;
        assert(num_b * den_a <= u32::MAX * u32::MAX) by (nonlinear_arith)
            requires
                num_b <= u32::MAX,
                den_a <= u32::MAX,
        ;
    }
    let rate_a: u64 = num_a as u64 * den_b as u64;
    let rate_b: u64 = num_b as u64 * den_a as u64;
    area_a < area_b || (area_a == area_b && a.width < b.width) || (area_a == area_b && a.width
        == b.width && rate_a < rate_b)
}

/// Picks the project profile: the source with the largest display area wins
/// and contributes both resolution and rate, ties broken by width, then rate;
/// of equals the last wins. None iff there is no video-bearing source.
pub fn select_profile(videos: &Vec<VideoProps>) -> (r: Option<OutputProfile>)
    ensures
        r is None == (videos@.len() == 0),
        r is Some ==> exists|i: int|
            {
                &&& 0 <= i < videos@.len()
                &&& r->0 == (OutputProfile {
                    width: (#[trigger] videos@[i]).width,
                    height: videos@[i].height,
                    fps: Fps::Rate(videos@[i].fps),
                })
                &&& forall|j: int| 0 <= j < videos@.len() ==> !outranks(#[trigger] videos@[j], videos@[i])
                &&& forall|j: int| i < j < videos@.len() ==> outranks(videos@[i], #[trigger] videos@[j])
            },
{
    if videos.len() == 0 {
        return None;
    }
    let mut best: usize = 0;
    let mut i: usize = 1;
    proof {
        lemma_rank(videos@[0], videos@[0], videos@[0]);
    }
    while i < videos.len()
        invariant
            best < i <= videos@.len(),
            forall|j: int| 0 <= j < i ==> !outranks(#[trigger] videos@[j], videos@[best as int]),
            forall|j: int| best < j < i ==> outranks(videos@[best as int], #[trigger] videos@[j]),
        decreases videos@.len() - i,
    {
        if !better(&videos[best], &videos[i]) {
            let ghost old_best = best as int;
            proof {
                assert forall|j: int| 0 <= j < i + 1 implies !outranks(
                    #[trigger] videos@[j],
                    videos@[i as int],
                ) by {
                    lemma_rank(videos@[j], videos@[old_best], videos@[i as int]);
                }
            }
            best = i;
        }
        i = i + 1;
    }
    let v: VideoProps = videos[best];
    Some(OutputProfile { width: v.width, height: v.height, fps: Fps::Rate(v.fps) })
}

/// Ranking is a strict weak order.
proof fn lemma_rank(a: VideoProps, b: VideoProps, c: VideoProps)
    ensures
        !outranks(a, a),
        b.fps.positive() && !outranks(a, b) && !outranks(b, c) ==> !outranks(a, c),
{
    if b.fps.positive() && !outranks(a, b) && !outranks(b, c) && outranks(a, c) {
        let (an, ad) = (a.fps.num() as int, a.fps.den() as int);
        let (bn, bd) = (b.fps.num() as int, b.fps.den() as int);
        let (cn, cd) = (c.fps.num() as int, c.fps.den() as int);
        a.fps.lemma_terms();
        c.fps.lemma_terms();
        assert(an * bd <= bn * ad);
        assert(bn * cd <= cn * bd);
        assert(cn * ad < an * cd);
        assert(false) by (nonlinear_arith)
            requires
                an * bd <= bn * ad,
                bn * cd <= cn * bd,
                cn * ad < an * cd,
                bn > 0,
                bd > 0,
                an >= 0,
                ad >= 0,
                cn >= 0,
                cd >= 0,
        ;
    }
}

// -------------------------------------------------------- frame quantization

/// The frame count nearest to output time `t` at a rate: `round(t * fps)`,
/// halves upward.
pub open spec fn frames(t: int, rate: Rate) -> int {
    (2 * (t * rate.num()) + 1_000_000_000 * rate.den()) / (2 * (1_000_000_000 * rate.den()))
}

/// The source frame that shows at source time `t`: `floor(t * fps + 1e-9)`.
pub open spec fn frame_at(t: int, rate: Rate) -> int {
    (t * rate.num() + rate.den()) / (1_000_000_000 * rate.den() as int)
}

/// A later time has no fewer frames.
pub proof fn law_frames_are_monotone(t: int, u: int, rate: Rate)
    requires
        rate.positive(),
        0 <= t <= u,
    ensures
        0 <= frames(t, rate) <= frames(u, rate),
{
    let num = rate.num() as int;
    let d = 1_000_000_000 * rate.den() as int;
    assert(0 <= t * num <= u * num) by (nonlinear_arith)
        requires
            0 <= t <= u,
            num > 0,
    ;
    lemma_div_is_ordered(2 * (t * num) + d, 2 * (u * num) + d, 2 * d);
    vstd::arithmetic::div_mod::lemma_div_pos_is_pos(2 * (t * num) + d, 2 * d);
}

/// Cumulative rounding keeps the video within half a frame of the audio: at
/// every output time, `|frames - t * fps| <= 1/2`.
pub proof fn law_frames_within_half(t: int, rate: Rate)
    requires
        rate.positive(),
    ensures
        ({
            let one = 1_000_000_000 * rate.den();
            -one <= 2 * (frames(t, rate) * one - t * rate.num()) <= one
        }),
{
    let num = rate.num() as int;
    let one = 1_000_000_000 * rate.den() as int;
    let x = 2 * (t * num) + one;
    lemma_fundamental_div_mod(x, 2 * one);
    let f = frames(t, rate);
    vstd::arithmetic::div_mod::lemma_mod_bound(x, 2 * one);
    assert((2 * one) * f == 2 * (f * one)) by (nonlinear_arith);
}

/// `frames`, at most `i64::MAX`.
pub fn frames_by(t: i128, rate: Rate) -> (n: i64)
    requires
        t >= 0,
    ensures
        n == clamped(frames(t as int, rate)),
        n >= 0,
        rate.positive(),
{
    clamp(frames_capped(t, rate))
}

fn frames_capped(t: i128, rate: Rate) -> (n: i128)
    requires
        t >= 0,
    ensures
        n == (if frames(t as int, rate) > 0x8000_0000_0000_0000 {
            0x8000_0000_0000_0000
        } else {
            frames(t as int, rate)
        }),
        n >= 0,
        rate.positive(),
{
    let (num, den): (u32, u32) = rate.terms();
    let one: i128 = 1_000_000_000 * den as i128;
    let q: i128 = t / one;
    let r: i128 = t % one;
    proof {
        law_frames_are_monotone(0, t as int, rate);
        lemma_fundamental_div_mod(t as int, one as int);
        vstd::arithmetic::div_mod::lemma_mod_bound(t as int, one as int);
        vstd::arithmetic::div_mod::lemma_div_pos_is_pos(t as int, one as int);
        assert(0 <= r * num) by (nonlinear_arith)
            requires
                r >= 0,
                num > 0,
        ;
        assert(r * num <= one * u32::MAX) by (nonlinear_arith)
            requires
                0 <= r < one,
                0 < num <= u32::MAX,
        ;
    }
    let tail: i128 = 2 * (r * num as i128) + one;
    proof {
        let whole = q * num;
        assert(2 * (t * num) + one == (2 * one) * whole + tail) by (nonlinear_arith)
            requires
                t == one * q + r,
                tail == 2 * (r * num) + one,
                whole == q * num,
        ;
        lemma_fundamental_div_mod(tail as int, 2 * one);
        vstd::arithmetic::div_mod::lemma_mod_bound(tail as int, 2 * one);
        let rest = tail as int / (2 * one);
        assert((2 * one) * whole + (2 * one) * rest == (2 * one) * (whole + rest))
            by (nonlinear_arith);
        lemma_fundamental_div_mod_converse(
            2 * (t * num) + one,
            2 * one,
            whole + rest,
            tail as int % (2 * one),
        );
        assert(frames(t as int, rate) == whole + rest);
        vstd::arithmetic::div_mod::lemma_div_pos_is_pos(tail as int, 2 * one);
        assert(q <= whole) by (nonlinear_arith)
            requires
                whole == q * num,
                num >= 1,
                q >= 0,
        ;
    }
    if q > i64::MAX as i128 {
        0x8000_0000_0000_0000
    } else {
        proof {
            assert(0 <= q * num <= i64::MAX * u32::MAX) by (nonlinear_arith)
                requires
                    0 <= q <= i64::MAX,
                    0 < num <= u32::MAX,
            ;
            lemma_div_is_ordered(0, tail as int, 2 * one);
            vstd::arithmetic::div_mod::lemma_div_nonincreasing(tail as int, 2 * one);
        }
        let n: i128 = q * num as i128 + tail / (2 * one);
        if n > 0x8000_0000_0000_0000 {
            0x8000_0000_0000_0000
        } else {
            n
        }
    }
}

/// The frames due at output time `t` at any rate that is asked for, within the
/// range of `i64`: none where the rate is no number.
pub open spec fn due(t: int, fps: Fps) -> int {
    match fps {
        Fps::Rate(rate) => clamped(frames(t, rate)),
        Fps::Minus(rate) => clamped(-frames(t, rate)),
        Fps::Zero { .. } => 0,
        Fps::NaN => 0,
        Fps::Infinity => if t > 0 {
            i64::MAX as int
        } else {
            0
        },
        Fps::NegInfinity => if t > 0 {
            i64::MIN as int
        } else {
            0
        },
    }
}

/// `due`.
pub fn frames_due(t: i128, fps: Fps) -> (n: i64)
    requires
        t >= 0,
    ensures
        n == due(t as int, fps),
{
    match fps {
        Fps::Rate(rate) => frames_by(t, rate),
        Fps::Minus(rate) => clamp(-frames_capped(t, rate)),
        Fps::Zero { .. } => 0,
        Fps::NaN => 0,
        Fps::Infinity => if t > 0 {
            i64::MAX
        } else {
            0
        },
        Fps::NegInfinity => if t > 0 {
            i64::MIN
        } else {
            0
        },
    }
}

/// Frames due move away from zero as time goes on.
proof fn lemma_due_grows(t: int, u: int, fps: Fps)
    requires
        0 <= t <= u,
        fps matches Fps::Rate(rate) ==> rate.positive(),
        fps matches Fps::Minus(rate) ==> rate.positive(),
    ensures
        (0 <= due(t, fps) <= due(u, fps)) || (due(u, fps) <= due(t, fps) <= 0),
{
    match fps {
        Fps::Rate(rate) => law_frames_are_monotone(t, u, rate),
        Fps::Minus(rate) => law_frames_are_monotone(t, u, rate),
        _ => {},
    }
}

/// `frame_at`, at most `i64::MAX`.
pub fn first_frame(t: i64, rate: Rate) -> (n: i64)
    requires
        t >= 0,
    ensures
        n == clamped(frame_at(t as int, rate)),
        n >= 0,
{
    let (num, den): (u32, u32) = rate.terms();
    proof {
        assert(0 <= t * num <= i64::MAX * u32::MAX) by (nonlinear_arith)
            requires
                0 <= t <= i64::MAX,
                0 < num <= u32::MAX,
        ;
        vstd::arithmetic::div_mod::lemma_div_pos_is_pos(
            t * num + den,
            1_000_000_000 * den as int,
        );
    }
    clamp((t as i128 * num as i128 + den as i128) / (1_000_000_000 * den as i128))
}

/// Whether two rates are equal within a millionth of a frame per second, so
/// that no resampling is needed.
pub open spec fn same_rate(a: Rate, b: Rate) -> bool {
    let gap = a.num() * b.den() - b.num() * a.den();
    -(a.den() * b.den()) <= 1_000_000 * gap <= a.den() * b.den()
}

/// Whether a source's rate equals the profile's within a millionth of a frame
/// per second.
pub open spec fn at_rate(src: Rate, fps: Fps) -> bool {
    match fps {
        Fps::Rate(rate) => same_rate(src, rate),
        Fps::Minus(rate) => 1_000_000 * (src.num() * rate.den() + rate.num() * src.den())
            <= src.den() * rate.den(),
        Fps::Zero { .. } => 1_000_000 * src.num() <= src.den(),
        _ => false,
    }
}

/// How many source frames cover `n` output frames after resampling: the exact
/// count rounded up, plus two for the resampler's phase.
pub open spec fn source_frames(n: int, src: Rate, out: Rate) -> int {
    let have = n * (src.num() * out.den());
    let per = (src.den() * out.num()) as int;
    (have + per - 1) / per + 2
}

/// How many source frames are taken for `n` output frames at any rate that is
/// asked for: only the two for the phase where no number of them covers it.
pub open spec fn frames_taken(n: int, src: Rate, fps: Fps) -> int {
    match fps {
        Fps::Rate(rate) => source_frames(n, src, rate),
        Fps::Minus(rate) => source_frames(-n, src, rate),
        _ => 2,
    }
}

fn is_at_rate(src: Rate, fps: Fps) -> (r: bool)
    ensures
        r == at_rate(src, fps),
{
    let (an, ad): (u32, u32) = src.terms();
    match fps {
        Fps::Rate(rate) => rates_match(src, rate),
        Fps::Minus(rate) => {
            let (bn, bd): (u32, u32) = rate.terms();
            proof {
                lemma_u32_product(an, bd);
                lemma_u32_product(bn, ad);
                lemma_u32_product(ad, bd);
            }
            1_000_000 * (an as i128 * bd as i128 + bn as i128 * ad as i128) <= ad as i128
                * bd as i128
        },
        Fps::Zero { .. } => 1_000_000 * an as u64 <= ad as u64,
        _ => false,
    }
}

fn frames_to_take(n: i64, src: Rate, fps: Fps) -> (m: u128)
    requires
        budgeted(n as int, fps),
    ensures
        m == frames_taken(n as int, src, fps),
{
    match fps {
        Fps::Rate(rate) => frames_needed(n as u128, src, rate),
        Fps::Minus(rate) => frames_needed((-(n as i128)) as u128, src, rate),
        _ => 2,
    }
}

/// Whether a frame budget has the sign of its rate.
pub open spec fn budgeted(n: int, fps: Fps) -> bool {
    match fps {
        Fps::Rate(_) => n >= 0,
        Fps::Minus(_) => n <= 0,
        _ => true,
    }
}

fn rates_match(a: Rate, b: Rate) -> (r: bool)
    ensures
        r == same_rate(a, b),
{
    let (an, ad): (u32, u32) = a.terms();
    let (bn, bd): (u32, u32) = b.terms();
    proof {
        lemma_u32_product(an, bd);
        lemma_u32_product(bn, ad);
        lemma_u32_product(ad, bd);
    }
    let gap: i128 = an as i128 * bd as i128 - bn as i128 * ad as i128;
    let unit: i128 = ad as i128 * bd as i128;
    -unit <= 1_000_000 * gap && 1_000_000 * gap <= unit
}

proof fn lemma_u32_product(a: u32, b: u32)
    ensures
        0 <= a * b <= u32::MAX * u32::MAX,
{
    assert(0 <= a * b <= u32::MAX * u32::MAX) by (nonlinear_arith)
        requires
            0 <= a <= u32::MAX,
            0 <= b <= u32::MAX,
    ;
}

fn frames_needed(n: u128, src: Rate, out: Rate) -> (m: u128)
    requires
        n <= 0x8000_0000_0000_0000,
    ensures
        m == source_frames(n as int, src, out),
{
    let (sn, sd): (u32, u32) = src.terms();
    let (on, od): (u32, u32) = out.terms();
    proof {
        lemma_u32_product(sn, od);
        lemma_u32_product(sd, on);
        assert(sd * on >= 1) by (nonlinear_arith)
            requires
                sd >= 1,
                on >= 1,
        ;
    }
    let up: u128 = sn as u128 * od as u128;
    let per: u128 = sd as u128 * on as u128;
    proof {
        assert(0 <= n * up <= 0x8000_0000_0000_0000 * (u32::MAX * u32::MAX)) by (nonlinear_arith)
            requires
                0 <= n <= 0x8000_0000_0000_0000,
                0 <= up <= u32::MAX * u32::MAX,
        ;
    }
    let have: u128 = n * up;
    proof {
        vstd::arithmetic::div_mod::lemma_div_nonincreasing(have + per - 1, per as int);
    }
    (have + per - 1) / per + 2
}

// --------------------------------------------------------------- invocations

/// The video filter chain of one extraction.
pub open spec fn video_chain(n_k: int, src_fps: Rate, profile: OutputProfile) -> Seq<char> {
    let frames_part = if at_rate(src_fps, profile.fps) {
        "[0:v]trim=end_frame="@ + signed_dec(n_k) + ",setpts=PTS-STARTPTS"@
    } else {
        "[0:v]trim=end_frame="@ + dec(frames_taken(n_k, src_fps, profile.fps) as nat)
            + ",setpts=PTS-STARTPTS,fps="@ + fps_text(profile.fps) + ",trim=end_frame="@
            + signed_dec(n_k) + ",setpts=PTS-STARTPTS"@
    };
    let w = dec(profile.width as nat);
    let h = dec(profile.height as nat);
    frames_part + ",scale="@ + w + ":"@ + h
        + ":force_original_aspect_ratio=decrease:force_divisible_by=2,pad="@ + w + ":"@ + h
        + ":(ow-iw)/2:(oh-ih)/2,setsar=1[v]"@
}

/// Where the audio input seek lands.
pub open spec fn audio_seek(t_start: int) -> int {
    if t_start > AUDIO_SEEK_LEAD {
        t_start - AUDIO_SEEK_LEAD
    } else {
        0
    }
}

/// The audio filter chain of one extraction.
pub open spec fn audio_chain(t_start: int, t_end: int) -> Seq<char> {
    "[1:a]atrim=start="@ + time_text(t_start - audio_seek(t_start)) + ":end="@ + time_text(
        t_end - audio_seek(t_start),
    ) + ",asetpts=PTS-STARTPTS,aresample="@ + dec(AUDIO_RATE as nat)
        + ",aformat=sample_fmts=s32:channel_layouts=stereo[a]"@
}

/// The video input seek: half a source frame before frame `f_k`, not before
/// the start.
pub open spec fn video_seek_text(f_k: int, src_fps: Rate) -> Seq<char> {
    if f_k <= 0 {
        time_text(0)
    } else {
        six_decimals(((2 * f_k - 1) * src_fps.den()) as nat, (2 * src_fps.num()) as nat)
    }
}

/// One frame-exact extraction's argument list.
pub open spec fn stage1_texts(
    segment: SegmentView,
    src_fps: Rate,
    f_k: int,
    n_k: int,
    profile: OutputProfile,
    out: Seq<char>,
) -> Seq<Seq<char>> {
    seq![
        "ffmpeg"@,
        "-hide_banner"@,
        "-nostdin"@,
        "-v"@,
        "error"@,
        "-y"@,
        "-ss"@,
        video_seek_text(f_k, src_fps),
        "-i"@,
        segment.master_path,
        "-ss"@,
        time_text(audio_seek(segment.t_start)),
        "-i"@,
        segment.master_path,
        "-filter_complex"@,
        video_chain(n_k, src_fps, profile) + ";"@ + audio_chain(segment.t_start, segment.t_end),
        "-map"@,
        "[v]"@,
        "-map"@,
        "[a]"@,
        "-c:v"@,
        "prores_ks"@,
        "-profile:v"@,
        "3"@,
        "-vendor"@,
        "apl0"@,
        "-pix_fmt"@,
        "yuv422p10le"@,
        "-fps_mode"@,
        "cfr"@,
        "-r"@,
        fps_text(profile.fps),
        "-c:a"@,
        "pcm_s24le"@,
        out,
    ]
}

fn video_filter(n_k: i64, src_fps: Rate, profile: &OutputProfile) -> (s: String)
    requires
        budgeted(n_k as int, profile.fps),
    ensures
        s@ == video_chain(n_k as int, src_fps, *profile),
{
    let mut s: String = "[0:v]trim=end_frame=".to_owned();
    if is_at_rate(src_fps, profile.fps) {
        push_signed(&mut s, n_k);
        s.append(",setpts=PTS-STARTPTS");
    } else {
        push_dec(&mut s, frames_to_take(n_k, src_fps, profile.fps));
        s.append(",setpts=PTS-STARTPTS,fps=");
        s.append(profile.fps.text().as_str());
        s.append(",trim=end_frame=");
        push_signed(&mut s, n_k);
        s.append(",setpts=PTS-STARTPTS");
    }
    s.append(",scale=");
    push_dec(&mut s, profile.width as u128);
    s.append(":");
    push_dec(&mut s, profile.height as u128);
    s.append(":force_original_aspect_ratio=decrease:force_divisible_by=2,pad=");
    push_dec(&mut s, profile.width as u128);
    s.append(":");
    push_dec(&mut s, profile.height as u128);
    s.append(":(ow-iw)/2:(oh-ih)/2,setsar=1[v]");
    s
}

fn audio_filter(t_start: i64, t_end: i64) -> (s: String)
    ensures
        s@ == audio_chain(t_start as int, t_end as int),
{
    let seek: i64 = if t_start > AUDIO_SEEK_LEAD {
        t_start - AUDIO_SEEK_LEAD
    } else {
        0
    };
    let mut s: String = "[1:a]atrim=start=".to_owned();
    s.append(fmt_time((t_start - seek) as i128).as_str());
    s.append(":end=");
    s.append(fmt_time(t_end as i128 - seek as i128).as_str());
    s.append(",asetpts=PTS-STARTPTS,aresample=");
    push_dec(&mut s, AUDIO_RATE as u128);
    s.append(",aformat=sample_fmts=s32:channel_layouts=stereo[a]");
    s
}

fn video_seek(f_k: i64, src_fps: Rate) -> (s: String)
    ensures
        s@ == video_seek_text(f_k as int, src_fps),
{
    if f_k <= 0 {
        fmt_time(0)
    } else {
        let (num, den): (u32, u32) = src_fps.terms();
        proof {
            assert((2 * f_k - 1) * den <= (2 * i64::MAX - 1) * u32::MAX) by (nonlinear_arith)
                requires
                    0 < f_k <= i64::MAX,
                    0 < den <= u32::MAX,
            ;
            assert(0 <= (2 * f_k - 1) * den) by (nonlinear_arith)
                requires
                    0 < f_k,
                    0 < den,
            ;
        }
        fmt_ratio((2 * f_k as u128 - 1) * den as u128, 2 * num as u128)
    }
}

/// One frame-exact extraction. The video input seeks half a source frame
/// before frame `f_k` (accurate input seeking discards decoded frames before
/// the requested time, and the margin absorbs the master's container-timestamp
/// rounding), then takes exactly `n_k` frames by count. The audio input seeks
/// early and `atrim` cuts sample-exactly in seek-shifted time.
#[verifier::rlimit(60)]
#[verifier::spinoff_prover]
pub fn stage1_invocation(
    segment: &PlannedSegment,
    src_fps: Rate,
    f_k: i64,
    n_k: i64,
    profile: &OutputProfile,
    out: &str,
) -> (argv: Vec<String>)
    requires
        budgeted(n_k as int, profile.fps),
    ensures
        texts(argv@) == stage1_texts(
            segment@,
            src_fps,
            f_k as int,
            n_k as int,
            *profile,
            out@,
        ),
{
    let seek: i64 = if segment.t_start > AUDIO_SEEK_LEAD {
        segment.t_start - AUDIO_SEEK_LEAD
    } else {
        0
    };
    let mut filters: String = video_filter(n_k, src_fps, profile);
    filters.append(";");
    filters.append(audio_filter(segment.t_start, segment.t_end).as_str());
    let mut argv: Vec<String> = Vec::new();
    assert(texts(argv@) =~= Seq::empty());
    push_arg(&mut argv, "ffmpeg");
    push_arg(&mut argv, "-hide_banner");
    push_arg(&mut argv, "-nostdin");
    push_arg(&mut argv, "-v");
    push_arg(&mut argv, "error");
    push_arg(&mut argv, "-y");
    push_arg(&mut argv, "-ss");
    push_arg(&mut argv, video_seek(f_k, src_fps).as_str());
    push_arg(&mut argv, "-i");
    push_arg(&mut argv, segment.master_path.as_str());
    push_arg(&mut argv, "-ss");
    push_arg(&mut argv, fmt_time(seek as i128).as_str());
    push_arg(&mut argv, "-i");
    push_arg(&mut argv, segment.master_path.as_str());
    push_arg(&mut argv, "-filter_complex");
    push_arg(&mut argv, filters.as_str());
    push_arg(&mut argv, "-map");
    push_arg(&mut argv, "[v]");
    push_arg(&mut argv, "-map");
    push_arg(&mut argv, "[a]");
    push_arg(&mut argv, "-c:v");
    push_arg(&mut argv, "prores_ks");
    push_arg(&mut argv, "-profile:v");
    push_arg(&mut argv, "3");
    push_arg(&mut argv, "-vendor");
    push_arg(&mut argv, "apl0");
    push_arg(&mut argv, "-pix_fmt");
    push_arg(&mut argv, "yuv422p10le");
    push_arg(&mut argv, "-fps_mode");
    push_arg(&mut argv, "cfr");
    push_arg(&mut argv, "-r");
    push_arg(&mut argv, profile.fps.text().as_str());
    push_arg(&mut argv, "-c:a");
    push_arg(&mut argv, "pcm_s24le");
    push_arg(&mut argv, out);
    argv
}

/// Whether a lower-cased extension names a QuickTime container.
pub open spec fn quicktime(ext: Option<Seq<char>>) -> bool {
    ext == Some("mp4"@) || ext == Some("mov"@) || ext == Some("m4v"@)
}

/// The final encode's argument list: h.264 high, yuv420p and aac, with
/// faststart for the QuickTime containers.
pub open spec fn stage2_texts(
    concat_list: Seq<char>,
    output: Seq<char>,
    ext: Option<Seq<char>>,
) -> Seq<Seq<char>> {
    let common = seq![
        "ffmpeg"@,
        "-hide_banner"@,
        "-nostdin"@,
        "-v"@,
        "error"@,
        "-y"@,
        "-f"@,
        "concat"@,
        "-i"@,
        concat_list,
        "-map"@,
        "0:v:0"@,
        "-map"@,
        "0:a:0"@,
        "-c:v"@,
        "libx264"@,
        "-crf"@,
        "16"@,
        "-preset"@,
        "medium"@,
        "-pix_fmt"@,
        "yuv420p"@,
        "-c:a"@,
        "aac"@,
        "-b:a"@,
        "256k"@,
    ];
    if quicktime(ext) {
        common.push("-movflags"@).push("+faststart"@).push(output)
    } else {
        common.push(output)
    }
}

/// The final encode for an output whose lower-cased extension is `ext`.
pub fn stage2_args(concat_list: &str, output: &str, ext: &Option<String>) -> (argv: Vec<String>)
    ensures
        texts(argv@) == stage2_texts(concat_list@, output@, super::opt_text(*ext)),
{
    let mut argv: Vec<String> = Vec::new();
    assert(texts(argv@) =~= Seq::empty());
    push_arg(&mut argv, "ffmpeg");
    push_arg(&mut argv, "-hide_banner");
    push_arg(&mut argv, "-nostdin");
    push_arg(&mut argv, "-v");
    push_arg(&mut argv, "error");
    push_arg(&mut argv, "-y");
    push_arg(&mut argv, "-f");
    push_arg(&mut argv, "concat");
    push_arg(&mut argv, "-i");
    push_arg(&mut argv, concat_list);
    push_arg(&mut argv, "-map");
    push_arg(&mut argv, "0:v:0");
    push_arg(&mut argv, "-map");
    push_arg(&mut argv, "0:a:0");
    push_arg(&mut argv, "-c:v");
    push_arg(&mut argv, "libx264");
    push_arg(&mut argv, "-crf");
    push_arg(&mut argv, "16");
    push_arg(&mut argv, "-preset");
    push_arg(&mut argv, "medium");
    push_arg(&mut argv, "-pix_fmt");
    push_arg(&mut argv, "yuv420p");
    push_arg(&mut argv, "-c:a");
    push_arg(&mut argv, "aac");
    push_arg(&mut argv, "-b:a");
    push_arg(&mut argv, "256k");
    let fast: bool = match ext {
        Some(e) => same(e.as_str(), "mp4") || same(e.as_str(), "mov") || same(e.as_str(), "m4v"),
        None => false,
    };
    if fast {
        push_arg(&mut argv, "-movflags");
        push_arg(&mut argv, "+faststart");
    }
    push_arg(&mut argv, output);
    argv
}

/// A path's extension, lower-cased.
pub open spec fn lower_extension(path: Seq<char>) -> Option<Seq<char>> {
    match extension_of(path) {
        Some(ext) => Some(lowercased(ext)),
        None => None,
    }
}

/// Concat demuxer over the uniform intermediates, into the final encode.
pub fn stage2_invocation(concat_list: &str, output: &str) -> (argv: Vec<String>)
    ensures
        texts(argv@) == stage2_texts(concat_list@, output@, lower_extension(output@)),
{
    let ext: Option<String> = match extension(output) {
        Some(e) => Some(lowercase(e.as_str())),
        None => None,
    };
    stage2_args(concat_list, output, &ext)
}

// ---------------------------------------------------------------- the target

/// Caller-resolved render parameters: the output profile plus where the
/// plan's artifacts live.
#[derive(Debug)]
pub struct RenderSpec {
    pub profile: OutputProfile,
    /// Per-edit intermediates directory: deleted on success, kept on failure.
    pub intermediates_dir: String,
    pub output: String,
}

/// The two-stage render plan: complete ffmpeg invocations plus the concat
/// demuxer list the runner writes before stage 2.
#[derive(Debug)]
pub struct FfmpegPlan {
    /// One frame-exact extraction per planned segment, in output order.
    pub stage1: Vec<Vec<String>>,
    /// The intermediate each stage-1 invocation writes.
    pub intermediates: Vec<String>,
    pub concat_list_path: String,
    /// Body of the concat demuxer list (ffconcat v1.0, relative names).
    pub concat_list: String,
    /// The concat to final-encode invocation.
    pub stage2: Vec<String>,
    /// In nanoseconds.
    pub total_duration: i128,
}

/// The name of a transform that only a render can show.
pub open spec fn render_only(transform: Transform) -> Option<Seq<char>> {
    match transform {
        Transform::Pitch { .. } => Some("Pitch"@),
        Transform::Speed { .. } => Some("Speed"@),
        Transform::Reverse => Some("Reverse"@),
        _ => None,
    }
}

/// The first render-only transform of a list.
pub open spec fn first_render_only(transforms: Seq<Transform>) -> Option<Seq<char>>
    decreases transforms.len(),
{
    if transforms.len() == 0 {
        None
    } else {
        match first_render_only(transforms.drop_last()) {
            Some(name) => Some(name),
            None => render_only(transforms.last()),
        }
    }
}

/// The first clip with a render-only transform, as a fault.
pub open spec fn unsupported_fault(clips: Seq<ClipView>) -> Option<CompileFault>
    decreases clips.len(),
{
    if clips.len() == 0 {
        None
    } else {
        match unsupported_fault(clips.drop_last()) {
            Some(fault) => Some(fault),
            None => match first_render_only(clips.last().transforms) {
                Some(transform) => Some(
                    CompileFault::TransformUnsupported { clip_index: clips.len() - 1, transform },
                ),
                None => None,
            },
        }
    }
}

/// The source of the clip that a segment realizes.
pub open spec fn segment_source(clips: Seq<ClipView>, segment: SegmentView) -> SourceId {
    clips[segment.first].span.source
}

/// The first segment whose source has no frame rate, as a fault.
pub open spec fn fps_fault(
    clips: Seq<ClipView>,
    sources: Map<i64, SourceInfoView>,
    segments: Seq<SegmentView>,
) -> Option<CompileFault>
    decreases segments.len(),
{
    if segments.len() == 0 {
        None
    } else {
        match fps_fault(clips, sources, segments.drop_last()) {
            Some(fault) => Some(fault),
            None => {
                let source_id = segment_source(clips, segments.last());
                match sources[source_id.0].fps {
                    Some(_) => None,
                    None => Some(
                        CompileFault::MissingFps { clip_index: segments.last().first, source_id },
                    ),
                }
            },
        }
    }
}

/// Why an edit does not render: a render-only transform, then any fault of
/// the preview, then a source without a frame rate.
pub open spec fn render_fault(
    clips: Seq<ClipView>,
    sources: Map<i64, SourceInfoView>,
) -> Option<CompileFault> {
    match unsupported_fault(clips) {
        Some(fault) => Some(fault),
        None => match edit_fault(clips, sources) {
            Some(fault) => Some(fault),
            None => fps_fault(clips, sources, edit_segments(clips, sources)),
        },
    }
}

/// The file name of the intermediate of segment `k`.
pub open spec fn clip_name(k: nat) -> Seq<char> {
    "clip-"@ + (if k < 1000 {
        padded(k, 3)
    } else {
        dec(k)
    }) + ".mov"@
}

/// The frames of the output up to the end of the first `k` segments.
pub open spec fn frames_through(segments: Seq<SegmentView>, k: int, fps: Fps) -> int {
    due(total(segments.take(k)), fps)
}

/// The frame budget of segment `k`: what is due at its end less what is due
/// at its start.
pub open spec fn budget(segments: Seq<SegmentView>, k: int, fps: Fps) -> int {
    frames_through(segments, k + 1, fps) - frames_through(segments, k, fps)
}

/// The extraction of segment `k`.
pub open spec fn extraction(
    clips: Seq<ClipView>,
    sources: Map<i64, SourceInfoView>,
    segments: Seq<SegmentView>,
    k: int,
    profile: OutputProfile,
    dir: Seq<char>,
) -> Seq<Seq<char>> {
    let segment = segments[k];
    let src_fps = sources[segment_source(clips, segment).0].fps->0;
    stage1_texts(
        segment,
        src_fps,
        clamped(frame_at(segment.t_start, src_fps)),
        budget(segments, k, profile.fps),
        profile,
        joined_path(dir, clip_name(k as nat)),
    )
}

/// The concat demuxer list of the first `n` intermediates.
pub open spec fn concat_text(n: nat) -> Seq<char>
    decreases n,
{
    if n == 0 {
        "ffconcat version 1.0\n"@
    } else {
        concat_text((n - 1) as nat) + "file '"@ + clip_name((n - 1) as nat) + "'\n"@
    }
}

/// What a render plan holds for an edit that compiles.
pub open spec fn renders(
    plan: FfmpegPlan,
    clips: Seq<ClipView>,
    sources: Map<i64, SourceInfoView>,
    profile: OutputProfile,
    dir: Seq<char>,
    output: Seq<char>,
) -> bool {
    let segments = edit_segments(clips, sources);
    &&& plan.stage1@.len() == segments.len()
    &&& plan.intermediates@.len() == segments.len()
    &&& forall|k: int|
        #![trigger plan.stage1@[k]]
        0 <= k < segments.len() ==> texts(plan.stage1@[k]@) == extraction(
            clips,
            sources,
            segments,
            k,
            profile,
            dir,
        )
    &&& forall|k: int|
        #![trigger plan.intermediates@[k]]
        0 <= k < segments.len() ==> plan.intermediates@[k]@ == joined_path(
            dir,
            clip_name(k as nat),
        )
    &&& plan.concat_list_path@ == joined_path(dir, "concat.txt"@)
    &&& plan.concat_list@ == concat_text(segments.len())
    &&& texts(plan.stage2@) == stage2_texts(
        plan.concat_list_path@,
        output,
        lower_extension(output),
    )
    &&& plan.total_duration == total(segments)
}

fn check_supported(edl: &Edl) -> (r: Result<(), EdlCompileError>)
    ensures
        match unsupported_fault(clip_views(edl.clips@)) {
            Some(fault) => r is Err && r->Err_0@ == fault,
            None => r is Ok,
        },
{
    let ghost clips = clip_views(edl.clips@);
    let mut i: usize = 0;
    while i < edl.clips.len()
        invariant
            i <= edl.clips@.len(),
            clips == clip_views(edl.clips@),
            unsupported_fault(clips.take(i as int)) is None,
        decreases edl.clips@.len() - i,
    {
        let ghost ts = edl.clips@[i as int].transforms@;
        proof {
            assert(clips.take(i + 1).drop_last() =~= clips.take(i as int));
            assert(clips.take(i + 1).last() == edl.clips@[i as int]@);
        }
        let mut j: usize = 0;
        while j < edl.clips[i].transforms.len()
            invariant
                i < edl.clips@.len(),
                ts == edl.clips@[i as int].transforms@,
                j <= ts.len(),
                clips == clip_views(edl.clips@),
                unsupported_fault(clips.take(i as int)) is None,
                clips.take(i + 1).drop_last() == clips.take(i as int),
                clips.take(i + 1).last() == edl.clips@[i as int]@,
                first_render_only(ts.take(j as int)) is None,
            decreases ts.len() - j,
        {
            assert(ts.take(j + 1).drop_last() =~= ts.take(j as int));
            let unsupported: Option<&'static str> = match edl.clips[i].transforms[j] {
                Transform::Pitch { .. } => Some("Pitch"),
                Transform::Speed { .. } => Some("Speed"),
                Transform::Reverse => Some("Reverse"),
                Transform::Loop { .. } => None,
                Transform::Stutter { .. } => None,
            };
            if let Some(transform) = unsupported {
                proof {
                    lemma_render_only_stays(ts, j + 1);
                    lemma_unsupported_stays(clips, i + 1);
                }
                return Err(EdlCompileError::TransformUnsupported { clip_index: i, transform });
            }
            j = j + 1;
        }
        assert(ts.take(j as int) =~= ts);
        i = i + 1;
    }
    assert(clips.take(i as int) =~= clips);
    Ok(())
}

proof fn lemma_render_only_stays(ts: Seq<Transform>, n: int)
    requires
        0 <= n <= ts.len(),
        first_render_only(ts.take(n)) is Some,
    ensures
        first_render_only(ts) == first_render_only(ts.take(n)),
    decreases ts.len() - n,
{
    if n == ts.len() {
        assert(ts.take(n) =~= ts);
    } else {
        assert(ts.take(n + 1).drop_last() =~= ts.take(n));
        lemma_render_only_stays(ts, n + 1);
    }
}

proof fn lemma_unsupported_stays(clips: Seq<ClipView>, n: int)
    requires
        0 <= n <= clips.len(),
        unsupported_fault(clips.take(n)) is Some,
    ensures
        unsupported_fault(clips) == unsupported_fault(clips.take(n)),
    decreases clips.len() - n,
{
    if n == clips.len() {
        assert(clips.take(n) =~= clips);
    } else {
        assert(clips.take(n + 1).drop_last() =~= clips.take(n));
        lemma_unsupported_stays(clips, n + 1);
    }
}

proof fn lemma_fps_stays(
    clips: Seq<ClipView>,
    sources: Map<i64, SourceInfoView>,
    segments: Seq<SegmentView>,
    n: int,
)
    requires
        0 <= n <= segments.len(),
        fps_fault(clips, sources, segments.take(n)) is Some,
    ensures
        fps_fault(clips, sources, segments) == fps_fault(clips, sources, segments.take(n)),
    decreases segments.len() - n,
{
    if n == segments.len() {
        assert(segments.take(n) =~= segments);
    } else {
        assert(segments.take(n + 1).drop_last() =~= segments.take(n));
        lemma_fps_stays(clips, sources, segments, n + 1);
    }
}

/// Both terms of a rate are positive.
fn check_positive(fps: Fps)
    ensures
        fps matches Fps::Rate(rate) ==> rate.positive(),
        fps matches Fps::Minus(rate) ==> rate.positive(),
{
    match fps {
        Fps::Rate(rate) => {
            let _: (u32, u32) = rate.terms();
        },
        Fps::Minus(rate) => {
            let _: (u32, u32) = rate.terms();
        },
        _ => {},
    }
}

fn intermediate_name(k: usize) -> (s: String)
    ensures
        s@ == clip_name(k as nat),
{
    let mut s: String = "clip-".to_owned();
    if k < 1000 {
        push_padded(&mut s, k as u128, 3);
    } else {
        push_dec(&mut s, k as u128);
    }
    s.append(".mov");
    s
}

/// Compiles an edit to the two-stage ffmpeg render plan, consuming the same
/// elision pre-pass as the mpv preview so that the two targets can never
/// disagree about the output timeline.
pub fn compile_ffmpeg(edl: &Edl, sources: &SourceMap, spec: &RenderSpec) -> (r: Result<
    FfmpegPlan,
    EdlCompileError,
>)
    ensures
        ({
            let clips = clip_views(edl.clips@);
            let infos = info_views(sources@);
            match render_fault(clips, infos) {
                Some(fault) => r is Err && r->Err_0@ == fault,
                None => r is Ok && renders(
                    r->Ok_0,
                    clips,
                    infos,
                    spec.profile,
                    spec.intermediates_dir@,
                    spec.output@,
                ),
            }
        }),
{
    // Loop and Stutter render through segment expansion; the render-only
    // transforms are rejected, never silently rendered plain: the render is
    // the reference and has no badge to show.
    match check_supported(edl) {
        Err(e) => {
            return Err(e);
        },
        Ok(()) => {},
    }
    let plan: PreviewPlan = match plan_preview(edl, sources) {
        Err(e) => {
            return Err(e);
        },
        Ok(plan) => plan,
    };
    let ghost clips = clip_views(edl.clips@);
    let ghost infos = info_views(sources@);
    let ghost segments = edit_segments(clips, infos);
    let ghost dir = spec.intermediates_dir@;
    let profile: OutputProfile = spec.profile;
    let mut stage1: Vec<Vec<String>> = Vec::new();
    let mut intermediates: Vec<String> = Vec::new();
    let mut concat_list: String = "ffconcat version 1.0\n".to_owned();
    proof {
        assert(plan.segments.len() == plan.segments@.len());
        lemma_boundaries_fit(plan.segments@);
    }
    let bounds: Vec<i128> = plan.boundaries();
    let mut frames_cum: i64 = frames_due(bounds[0], profile.fps);
    let mut k: usize = 0;
    proof {
        let (a, b) = (segments.take(0), Seq::<SegmentView>::empty());
        assert(a =~= b);
    }
    while k < plan.segments.len()
        invariant
            k <= plan.segments@.len(),
            clips == clip_views(edl.clips@),
            infos == info_views(sources@),
            segments == edit_segments(clips, infos),
            segments == segment_views(plan.segments@),
            segments_proper(segments),
            edit_fault(clips, infos) is None,
            unsupported_fault(clips) is None,
            fps_fault(clips, infos, segments.take(k as int)) is None,
            dir == spec.intermediates_dir@,
            profile == spec.profile,
            bounds@.len() == plan.segments@.len() + 1,
            forall|j: int|
                #![trigger bounds@[j]]
                0 <= j <= plan.segments@.len() ==> bounds@[j] == total(segments.take(j)),
            frames_cum == frames_through(segments, k as int, profile.fps),
            stage1@.len() == k,
            intermediates@.len() == k,
            forall|j: int|
                #![trigger stage1@[j]]
                0 <= j < k ==> texts(stage1@[j]@) == extraction(
                    clips,
                    infos,
                    segments,
                    j,
                    profile,
                    dir,
                ),
            forall|j: int|
                #![trigger intermediates@[j]]
                0 <= j < k ==> intermediates@[j]@ == joined_path(dir, clip_name(j as nat)),
            concat_list@ == concat_text(k as nat),
        decreases plan.segments@.len() - k,
    {
        let segment: &PlannedSegment = &plan.segments[k];
        let ghost seg = segments[k as int];
        proof {
            assert(seg == segment@);
            law_segments_follow_edit_order(clips, infos, k as int, k as int);
            assert(clips[seg.first] == edl.clips@[seg.first]@);
            lemma_no_fault(clips, infos, seg.first);
            assert(segments.take(k + 1).drop_last() =~= segments.take(k as int));
            assert(segments.take(k + 1).last() == seg);
        }
        let clip_index: usize = segment.clips.start;
        let source_id: SourceId = edl.clips[clip_index].span.source;
        let fps: Option<Rate> = match sources.get(&source_id.0) {
            Some(info) => info.fps,
            None => None,
        };
        let src_fps: Rate = match fps {
            Some(rate) => rate,
            None => {
                proof {
                    lemma_fps_stays(clips, infos, segments, k + 1);
                }
                return Err(EdlCompileError::MissingFps { clip_index, source_id });
            },
        };
        // Cumulative-rounding frame budget at the profile rate.
        proof {
            lemma_bounds_grow(segments, k as int);
        }
        let frames: i64 = frames_due(bounds[k + 1], profile.fps);
        check_positive(profile.fps);
        proof {
            lemma_due_grows(bounds@[k as int] as int, bounds@[k + 1] as int, profile.fps);
        }
        let n_k: i64 = frames - frames_cum;
        frames_cum = frames;
        // First master frame, on the source's own frame grid.
        let f_k: i64 = first_frame(segment.t_start, src_fps);
        let name: String = intermediate_name(k);
        let out: String = join_path(spec.intermediates_dir.as_str(), name.as_str());
        stage1.push(stage1_invocation(segment, src_fps, f_k, n_k, &profile, out.as_str()));
        intermediates.push(out);
        concat_list.append("file '");
        concat_list.append(name.as_str());
        concat_list.append("'\n");
        k = k + 1;
    }
    assert(segments.take(k as int) =~= segments);
    let concat_list_path: String = join_path(spec.intermediates_dir.as_str(), "concat.txt");
    let stage2: Vec<String> = stage2_invocation(concat_list_path.as_str(), spec.output.as_str());
    Ok(
        FfmpegPlan {
            stage1,
            intermediates,
            concat_list_path,
            concat_list,
            stage2,
            total_duration: plan.total_duration,
        },
    )
}

/// Output boundaries start at or after zero and never decrease.
proof fn lemma_bounds_grow(segments: Seq<SegmentView>, k: int)
    requires
        segments_proper(segments),
        0 <= k < segments.len(),
    ensures
        0 <= total(segments.take(k)) <= total(segments.take(k + 1)),
    decreases k,
{
    assert(segments.take(k + 1).drop_last() =~= segments.take(k));
    assert(segments.take(k + 1).last() == segments[k]);
    if k > 0 {
        lemma_bounds_grow(segments, k - 1);
    }
}

/// Where a segment's audio lies in the seek-shifted time of its extraction.
pub open spec fn audio_window(segment: SegmentView) -> (int, int) {
    (
        segment.t_start - audio_seek(segment.t_start),
        segment.t_end - audio_seek(segment.t_start),
    )
}

/// The summed length of the audio windows of the first `k` segments.
pub open spec fn windows_total(segments: Seq<SegmentView>, k: nat) -> int
    decreases k,
{
    if k == 0 {
        0
    } else {
        windows_total(segments, (k - 1) as nat) + (audio_window(segments[k - 1]).1 - audio_window(
            segments[k - 1],
        ).0)
    }
}

/// The preview and the render share one timeline: the render extracts the
/// segments that the mpv EDL plays, one each, and after any number of them
/// both are at the same output time.
pub proof fn law_targets_share_the_timeline(
    plan: FfmpegPlan,
    clips: Seq<ClipView>,
    sources: Map<i64, SourceInfoView>,
    profile: OutputProfile,
    dir: Seq<char>,
    output: Seq<char>,
    k: nat,
)
    requires
        renders(plan, clips, sources, profile, dir, output),
        k <= edit_segments(clips, sources).len(),
    ensures
        plan.stage1@.len() == super::compile::entry_texts(edit_segments(clips, sources)).len(),
        windows_total(edit_segments(clips, sources), k) == total(
            edit_segments(clips, sources).take(k as int),
        ),
    decreases k,
{
    let segments = edit_segments(clips, sources);
    if k == 0 {
        assert(segments.take(0) =~= Seq::empty());
    } else {
        law_targets_share_the_timeline(
            plan,
            clips,
            sources,
            profile,
            dir,
            output,
            (k - 1) as nat,
        );
        assert(segments.take(k as int).drop_last() =~= segments.take(k - 1));
    }
}

/// The frame budgets add up: the first `k` segments together hold the frames
/// due at their end.
pub proof fn law_budgets_add_up(segments: Seq<SegmentView>, k: nat, fps: Fps)
    requires
        fps matches Fps::Rate(rate) ==> rate.positive(),
        fps matches Fps::Minus(rate) ==> rate.positive(),
        k <= segments.len(),
    ensures
        budget_sum(segments, k, fps) == frames_through(segments, k as int, fps),
    decreases k,
{
    if k == 0 {
        assert(segments.take(0) =~= Seq::empty());
        match fps {
            Fps::Rate(rate) => lemma_no_frames_at_zero(rate),
            Fps::Minus(rate) => lemma_no_frames_at_zero(rate),
            _ => {},
        }
    } else {
        law_budgets_add_up(segments, (k - 1) as nat, fps);
    }
}

proof fn lemma_no_frames_at_zero(rate: Rate)
    requires
        rate.positive(),
    ensures
        frames(0, rate) == 0,
{
    let d = 1_000_000_000 * rate.den();
    assert(0 * rate.num() == 0) by (nonlinear_arith);
    assert(d / (2 * d) == 0) by (nonlinear_arith)
        requires
            d > 0,
    ;
}

/// The video never drifts from the audio: after the first `k` segments of a
/// render, the frames of their budgets are within half a frame of the audio's
/// time at the profile's rate, wherever their number fits `i64`.
pub proof fn law_budgets_stay_within_half_a_frame(
    plan: FfmpegPlan,
    clips: Seq<ClipView>,
    sources: Map<i64, SourceInfoView>,
    profile: OutputProfile,
    dir: Seq<char>,
    output: Seq<char>,
    k: nat,
)
    requires
        renders(plan, clips, sources, profile, dir, output),
        profile.fps matches Fps::Rate(rate) && rate.positive(),
        k <= edit_segments(clips, sources).len(),
        i64::MIN <= frames(
            total(edit_segments(clips, sources).take(k as int)),
            profile.fps->Rate_0,
        ) <= i64::MAX,
    ensures
        ({
            let segments = edit_segments(clips, sources);
            let rate = profile.fps->Rate_0;
            let one = 1_000_000_000 * rate.den();
            let video = budget_sum(segments, k, profile.fps) * one;
            let audio = total(segments.take(k as int)) * rate.num();
            &&& -one <= 2 * (video - audio) <= one
            &&& k < segments.len() ==> texts(plan.stage1@[k as int]@) == extraction(
                clips,
                sources,
                segments,
                k as int,
                profile,
                dir,
            )
        }),
{
    let segments = edit_segments(clips, sources);
    let rate = profile.fps->Rate_0;
    let t = total(segments.take(k as int));
    law_budgets_add_up(segments, k, profile.fps);
    law_frames_within_half(t, rate);
}

/// The summed frame budgets of the first `k` segments.
pub open spec fn budget_sum(segments: Seq<SegmentView>, k: nat, fps: Fps) -> int
    decreases k,
{
    if k == 0 {
        0
    } else {
        budget_sum(segments, (k - 1) as nat, fps) + budget(segments, k - 1, fps)
    }
}

/// Whether an extraction opens its second input at `seek` and cuts `[from, to)`
/// out of the sound that it reads from there.
pub open spec fn cuts_audio(argv: Seq<Seq<char>>, seek: int, from: int, to: int) -> bool {
    &&& argv.len() > 15
    &&& argv[10] == "-ss"@
    &&& argv[11] == time_text(seek)
    &&& argv[12] == "-i"@
    &&& argv[14] == "-filter_complex"@
    &&& holds_text(
        argv[15],
        ";[1:a]atrim=start="@ + time_text(from) + ":end="@ + time_text(to)
            + ",asetpts=PTS-STARTPTS,"@,
    )
}

/// The sound that an extraction cuts out is the segment's own: what its second
/// input is opened at and what is cut from there add up to the segment's times.
pub proof fn law_audio_is_the_segments_own(
    plan: FfmpegPlan,
    clips: Seq<ClipView>,
    sources: Map<i64, SourceInfoView>,
    profile: OutputProfile,
    dir: Seq<char>,
    output: Seq<char>,
    k: int,
) -> (cut: (int, int, int))
    requires
        renders(plan, clips, sources, profile, dir, output),
        edit_fault(clips, sources) is None,
        0 <= k < plan.stage1@.len(),
    ensures
        cuts_audio(texts(plan.stage1@[k]@), cut.0, cut.1, cut.2),
        cut.0 >= 0,
        cut.1 >= 0,
        cut.0 + cut.1 == edit_segments(clips, sources)[k].t_start,
        cut.0 + cut.2 == edit_segments(clips, sources)[k].t_end,
        cut.1 <= 1_000_000_000,
{
    let segments = edit_segments(clips, sources);
    let seg = segments[k];
    let argv = texts(plan.stage1@[k]@);
    lemma_segments_start(clips, sources, k);
    let seek = if seg.t_start > 1_000_000_000 {
        seg.t_start - 1_000_000_000
    } else {
        0
    };
    let (from, to) = (seg.t_start - seek, seg.t_end - seek);
    let part = ";[1:a]atrim=start="@ + time_text(from) + ":end="@ + time_text(to)
        + ",asetpts=PTS-STARTPTS,"@;
    let src_fps = sources[segment_source(clips, seg).0].fps->0;
    let video = video_chain(budget(segments, k, profile.fps), src_fps, profile);
    let rest = "aresample="@ + dec(AUDIO_RATE as nat)
        + ",aformat=sample_fmts=s32:channel_layouts=stereo[a]"@;
    assert(argv == extraction(clips, sources, segments, k, profile, dir));
    reveal_strlit(";");
    reveal_strlit("[1:a]atrim=start=");
    reveal_strlit(";[1:a]atrim=start=");
    reveal_strlit(",asetpts=PTS-STARTPTS,aresample=");
    reveal_strlit(",asetpts=PTS-STARTPTS,");
    reveal_strlit("aresample=");
    assert(";"@ + "[1:a]atrim=start="@ =~= ";[1:a]atrim=start="@);
    assert(",asetpts=PTS-STARTPTS,"@ + "aresample="@ =~= ",asetpts=PTS-STARTPTS,aresample="@);
    assert(argv[15] =~= framed(video, part, rest));
    (seek, from, to)
}

proof fn lemma_segments_start(clips: Seq<ClipView>, sources: Map<i64, SourceInfoView>, k: int)
    requires
        edit_fault(clips, sources) is None,
        0 <= k < edit_segments(clips, sources).len(),
    ensures
        0 <= edit_segments(clips, sources)[k].t_start < edit_segments(clips, sources)[k].t_end,
{
    law_segments_follow_edit_order(clips, sources, k, k);
    let seg = edit_segments(clips, sources)[k];
    law_segments_play_their_clips(clips, sources, k, seg.first);
    law_valid_clips_play(clips, sources, seg.first);
    law_valid_edits_compile(clips, sources);
    let (a, b) = (clips[seg.first], clips[seg.end - 1]);
    if a.transforms.len() == 0 {
        lemma_ends_no_earlier(clips, sources, k, seg.end - 1);
    } else {
        let pieces = clip_pieces(a);
        let p = choose|p: int| 0 <= p < pieces.len() && pieces[p] == (seg.t_start, seg.t_end);
        assert(0 <= pieces[p].0 < pieces[p].1);
    }
}

proof fn lemma_ends_no_earlier(
    clips: Seq<ClipView>,
    sources: Map<i64, SourceInfoView>,
    k: int,
    i: int,
)
    requires
        edit_fault(clips, sources) is None,
        0 <= k < edit_segments(clips, sources).len(),
        edit_segments(clips, sources)[k].first <= i < edit_segments(clips, sources)[k].end,
        0 <= edit_segments(clips, sources)[k].first,
        edit_segments(clips, sources)[k].end <= clips.len(),
    ensures
        clips[i].span.t_end.nanos() >= clips[edit_segments(
            clips,
            sources,
        )[k].first].span.t_end.nanos(),
    decreases i,
{
    let seg = edit_segments(clips, sources)[k];
    if i > seg.first {
        lemma_ends_no_earlier(clips, sources, k, i - 1);
        law_contiguous_clips_share_a_segment(clips, sources, i);
        assert(shares_segment(clips, sources, i));
    }
}

/// Whether an extraction opens its first input half a frame before frame `f` of
/// a source at the given rate.
pub open spec fn opens_at_frame(argv: Seq<Seq<char>>, f: int, rate: Rate) -> bool {
    &&& argv.len() > 9
    &&& argv[6] == "-ss"@
    &&& argv[7] == if f == 0 {
        time_text(0)
    } else {
        six_decimals(((2 * f - 1) * rate.den()) as nat, (2 * rate.num()) as nat)
    }
    &&& argv[8] == "-i"@
}

/// The picture of an extraction begins with the source frame that shows at the
/// segment's start, within a billionth of a frame: its first input is opened
/// half a frame before that.
pub proof fn law_video_begins_at_the_segments_frame(
    plan: FfmpegPlan,
    clips: Seq<ClipView>,
    sources: Map<i64, SourceInfoView>,
    profile: OutputProfile,
    dir: Seq<char>,
    output: Seq<char>,
    k: int,
) -> (f: int)
    requires
        renders(plan, clips, sources, profile, dir, output),
        edit_fault(clips, sources) is None,
        0 <= k < plan.stage1@.len(),
        ({
            let seg = edit_segments(clips, sources)[k];
            let fps = sources[clips[seg.first].span.source.0].fps;
            fps is Some && fps->0.positive() && seg.t_start * fps->0.num() <= i64::MAX
        }),
    ensures
        ({
            let seg = edit_segments(clips, sources)[k];
            let rate = sources[clips[seg.first].span.source.0].fps->0;
            let one = 1_000_000_000 * rate.den();
            &&& f >= 0
            &&& opens_at_frame(texts(plan.stage1@[k]@), f, rate)
            &&& f * one <= seg.t_start * rate.num() + rate.den() < (f + 1) * one
        }),
{
    let segments = edit_segments(clips, sources);
    let seg = segments[k];
    let rate = sources[clips[seg.first].span.source.0].fps->0;
    let one = 1_000_000_000 * rate.den();
    lemma_segments_start(clips, sources, k);
    let f = frame_at(seg.t_start, rate);
    let x = seg.t_start * rate.num() + rate.den();
    assert(seg.t_start * rate.num() >= 0) by (nonlinear_arith)
        requires
            seg.t_start >= 0,
            rate.num() > 0,
    ;
    lemma_fundamental_div_mod(x, one);
    vstd::arithmetic::div_mod::lemma_mod_bound(x, one);
    vstd::arithmetic::div_mod::lemma_div_pos_is_pos(x, one);
    assert((f + 1) * one == one * f + one) by (nonlinear_arith);
    assert(f * one == one * f) by (nonlinear_arith);
    assert(f <= i64::MAX) by (nonlinear_arith)
        requires
            f * one <= x,
            x == seg.t_start * rate.num() + rate.den(),
            seg.t_start * rate.num() <= i64::MAX,
            one == 1_000_000_000 * rate.den(),
            rate.den() > 0,
    ;
    assert(texts(plan.stage1@[k]@) == extraction(clips, sources, segments, k, profile, dir));
    f
}

/// Whether an extraction takes `n` frames at the end of its video chain, scaled
/// and padded to the profile's size.
pub open spec fn takes_frames(argv: Seq<Seq<char>>, n: int, profile: OutputProfile) -> bool {
    let (w, h) = (dec(profile.width as nat), dec(profile.height as nat));
    argv.len() > 15 && argv[14] == "-filter_complex"@ && holds_text(
        argv[15],
        "trim=end_frame="@ + signed_dec(n) + ",setpts=PTS-STARTPTS,scale="@ + w + ":"@ + h
            + ":force_original_aspect_ratio=decrease:force_divisible_by=2,pad="@ + w + ":"@ + h
            + ":(ow-iw)/2:(oh-ih)/2,setsar=1[v];"@,
    )
}

/// The summed counts of the first `k` extractions.
pub open spec fn summed(counts: Seq<int>, k: nat) -> int
    decreases k,
{
    if k == 0 {
        0
    } else {
        summed(counts, (k - 1) as nat) + counts[k - 1]
    }
}

/// The frame counts that a render's extractions carry keep up with its sound:
/// after any number of them, as many frames were taken as the sound lasts, to
/// within half a frame, wherever their number fits `i64`.
pub proof fn law_frame_counts_keep_up_with_the_sound(
    plan: FfmpegPlan,
    clips: Seq<ClipView>,
    sources: Map<i64, SourceInfoView>,
    profile: OutputProfile,
    dir: Seq<char>,
    output: Seq<char>,
) -> (counts: Seq<int>)
    requires
        renders(plan, clips, sources, profile, dir, output),
        profile.fps matches Fps::Rate(rate) && rate.positive(),
    ensures
        counts.len() == plan.stage1@.len() == edit_segments(clips, sources).len(),
        forall|k: int|
            #![trigger counts[k]]
            0 <= k < counts.len() ==> takes_frames(texts(plan.stage1@[k]@), counts[k], profile),
        forall|k: nat|
            #![trigger summed(counts, k)]
            k <= counts.len() ==> {
                let rate = profile.fps->Rate_0;
                let one = 1_000_000_000 * rate.den();
                let sound = total(edit_segments(clips, sources).take(k as int)) * rate.num();
                -(i64::MAX * one) < sound < (i64::MAX - 1) * one ==> -one <= 2 * (summed(counts, k)
                    * one - sound) <= one
            },
{
    let segments = edit_segments(clips, sources);
    let rate = profile.fps->Rate_0;
    let one = 1_000_000_000 * rate.den();
    let counts = Seq::new(segments.len(), |k: int| budget(segments, k, profile.fps));
    assert forall|k: int| #![trigger counts[k]] 0 <= k < counts.len() implies takes_frames(
        texts(plan.stage1@[k]@),
        counts[k],
        profile,
    ) by {
        lemma_takes_frames(plan, clips, sources, profile, dir, output, k);
    }
    assert forall|k: nat| #![trigger summed(counts, k)] k <= counts.len() implies ({
        let sound = total(segments.take(k as int)) * rate.num();
        -(i64::MAX * one) < sound < (i64::MAX - 1) * one ==> -one <= 2 * (summed(counts, k) * one
            - sound) <= one
    }) by {
        let t = total(segments.take(k as int));
        let sound = t * rate.num();
        lemma_summed(segments, counts, k, profile.fps);
        law_budgets_add_up(segments, k, profile.fps);
        law_frames_within_half(t, rate);
        if -(i64::MAX * one) < sound < (i64::MAX - 1) * one {
            let f = frames(t, rate);
            assert(i64::MIN <= f <= i64::MAX) by (nonlinear_arith)
                requires
                    -one <= 2 * (f * one - sound) <= one,
                    -(i64::MAX * one) < sound < (i64::MAX - 1) * one,
                    one > 0,
            ;
        }
    }
    counts
}

proof fn lemma_summed(segments: Seq<SegmentView>, counts: Seq<int>, k: nat, fps: Fps)
    requires
        counts == Seq::new(segments.len(), |k: int| budget(segments, k, fps)),
        k <= segments.len(),
    ensures
        summed(counts, k) == budget_sum(segments, k, fps),
    decreases k,
{
    if k > 0 {
        lemma_summed(segments, counts, (k - 1) as nat, fps);
    }
}

#[verifier::rlimit(40)]
#[verifier::spinoff_prover]
proof fn lemma_takes_frames(
    plan: FfmpegPlan,
    clips: Seq<ClipView>,
    sources: Map<i64, SourceInfoView>,
    profile: OutputProfile,
    dir: Seq<char>,
    output: Seq<char>,
    k: int,
)
    requires
        renders(plan, clips, sources, profile, dir, output),
        0 <= k < edit_segments(clips, sources).len(),
    ensures
        takes_frames(
            texts(plan.stage1@[k]@),
            budget(edit_segments(clips, sources), k, profile.fps),
            profile,
        ),
{
    let segments = edit_segments(clips, sources);
    let seg = segments[k];
    let n = budget(segments, k, profile.fps);
    let argv = texts(plan.stage1@[k]@);
    let src_fps = sources[segment_source(clips, seg).0].fps->0;
    let (w, h) = (dec(profile.width as nat), dec(profile.height as nat));
    let part = "trim=end_frame="@ + signed_dec(n) + ",setpts=PTS-STARTPTS,scale="@ + w + ":"@ + h
        + ":force_original_aspect_ratio=decrease:force_divisible_by=2,pad="@ + w + ":"@ + h
        + ":(ow-iw)/2:(oh-ih)/2,setsar=1[v];"@;
    assert(argv == extraction(clips, sources, segments, k, profile, dir));
    reveal_strlit(";");
    reveal_strlit("[0:v]trim=end_frame=");
    reveal_strlit(",trim=end_frame=");
    reveal_strlit("trim=end_frame=");
    reveal_strlit("[0:v]");
    reveal_strlit(",");
    reveal_strlit(",setpts=PTS-STARTPTS");
    reveal_strlit(",scale=");
    reveal_strlit(",setpts=PTS-STARTPTS,scale=");
    reveal_strlit(":(ow-iw)/2:(oh-ih)/2,setsar=1[v]");
    reveal_strlit(":(ow-iw)/2:(oh-ih)/2,setsar=1[v];");
    assert("[0:v]"@ + "trim=end_frame="@ =~= "[0:v]trim=end_frame="@);
    assert(","@ + "trim=end_frame="@ =~= ",trim=end_frame="@);
    assert(",setpts=PTS-STARTPTS"@ + ",scale="@ =~= ",setpts=PTS-STARTPTS,scale="@);
    assert(":(ow-iw)/2:(oh-ih)/2,setsar=1[v]"@ + ";"@ =~= ":(ow-iw)/2:(oh-ih)/2,setsar=1[v];"@);
    let head = if at_rate(src_fps, profile.fps) {
        "[0:v]"@
    } else {
        "[0:v]trim=end_frame="@ + dec(frames_taken(n, src_fps, profile.fps) as nat)
            + ",setpts=PTS-STARTPTS,fps="@ + fps_text(profile.fps) + ","@
    };
    assert(argv[15] =~= framed(head, part, audio_chain(seg.t_start, seg.t_end)));
}

/// Whether an extraction resamples: it takes `m` source frames, brings them to
/// the rate whose text is `fps`, and takes `n` of those.
pub open spec fn resamples(argv: Seq<Seq<char>>, m: int, fps: Seq<char>, n: int) -> bool {
    argv.len() > 15 && begins(
        argv[15],
        "[0:v]trim=end_frame="@ + dec(m as nat) + ",setpts=PTS-STARTPTS,fps="@ + fps
            + ",trim=end_frame="@ + signed_dec(n) + ",setpts=PTS-STARTPTS,scale="@,
    )
}

/// Whether an extraction takes `n` source frames as they are.
pub open spec fn takes_plainly(argv: Seq<Seq<char>>, n: int) -> bool {
    argv.len() > 15 && begins(
        argv[15],
        "[0:v]trim=end_frame="@ + signed_dec(n) + ",setpts=PTS-STARTPTS,scale="@,
    )
}

/// A source is resampled iff its rate is over a millionth of a frame per second
/// off the profile's. Then two source frames more are taken than the least
/// number that lasts as long as the frames wanted.
pub proof fn law_resampling_covers_what_is_wanted(
    segment: SegmentView,
    src: Rate,
    out: Rate,
    f_k: int,
    n: int,
    width: u32,
    height: u32,
    path: Seq<char>,
)
    requires
        src.positive(),
        out.positive(),
        n >= 0,
    ensures
        ({
            let profile = OutputProfile { width, height, fps: Fps::Rate(out) };
            let argv = stage1_texts(segment, src, f_k, n, profile, path);
            let gap = src.num() * out.den() - out.num() * src.den();
            let unit = src.den() * out.den();
            if -unit <= 1_000_000 * gap <= unit {
                takes_plainly(argv, n)
            } else {
                exists|m: int|
                    {
                        &&& #[trigger] resamples(argv, m, six_decimals(out.num() as nat, out.den() as nat), n)
                        &&& (m - 2) * (src.den() * out.num()) >= n * (src.num() * out.den())
                        &&& (m - 3) * (src.den() * out.num()) < n * (src.num() * out.den())
                    }
            }
        }),
{
    let profile = OutputProfile { width, height, fps: Fps::Rate(out) };
    let argv = stage1_texts(segment, src, f_k, n, profile, path);
    let m = source_frames(n, src, out);
    let per = src.den() * out.num();
    let have = n * (src.num() * out.den());
    assert(per > 0 && have >= 0) by (nonlinear_arith)
        requires
            per == src.den() * out.num(),
            have == n * (src.num() * out.den()),
            n >= 0,
            src.den() > 0,
            src.num() > 0,
            out.num() > 0,
            out.den() > 0,
    ;
    lemma_fundamental_div_mod(have + per - 1, per);
    vstd::arithmetic::div_mod::lemma_mod_bound(have + per - 1, per);
    assert((m - 2) * per >= have && (m - 3) * per < have) by (nonlinear_arith)
        requires
            have + per - 1 == per * (m - 2) + (have + per - 1) % per,
            0 <= (have + per - 1) % per < per,
    ;
    reveal_strlit(",setpts=PTS-STARTPTS");
    reveal_strlit(",scale=");
    reveal_strlit(",setpts=PTS-STARTPTS,scale=");
    assert(",setpts=PTS-STARTPTS"@ + ",scale="@ =~= ",setpts=PTS-STARTPTS,scale="@);
    let plain = "[0:v]trim=end_frame="@ + signed_dec(n) + ",setpts=PTS-STARTPTS,scale="@;
    let again = "[0:v]trim=end_frame="@ + dec(m as nat) + ",setpts=PTS-STARTPTS,fps="@ + six_decimals(out.num() as nat, out.den() as nat) + ",trim=end_frame="@ + signed_dec(n) + ",setpts=PTS-STARTPTS,scale="@;
    if at_rate(src, profile.fps) {
        assert(argv[15].take(plain.len() as int) =~= plain);
    } else {
        assert(argv[15].take(again.len() as int) =~= again);
        assert(resamples(argv, m, six_decimals(out.num() as nat, out.den() as nat), n));
    }
}

/// An extraction reads the master of its clips' source twice, maps what its
/// video and its audio chain end in, writes at the profile's rate, and writes
/// the intermediate of its place.
pub proof fn law_extractions_read_and_write_their_own(
    plan: FfmpegPlan,
    clips: Seq<ClipView>,
    sources: Map<i64, SourceInfoView>,
    profile: OutputProfile,
    dir: Seq<char>,
    output: Seq<char>,
    k: int,
    i: int,
)
    requires
        renders(plan, clips, sources, profile, dir, output),
        edit_fault(clips, sources) is None,
        0 <= k < plan.stage1@.len(),
        edit_segments(clips, sources)[k].first <= i < edit_segments(clips, sources)[k].end,
    ensures
        ({
            let argv = texts(plan.stage1@[k]@);
            let master = sources[clips[i].span.source.0].master_path;
            &&& argv.len() == 35
            &&& argv[0] == "ffmpeg"@
            &&& argv[8] == "-i"@ && argv[9] == master
            &&& argv[12] == "-i"@ && argv[13] == master
            &&& argv[16] == "-map"@ && argv[18] == "-map"@
            &&& holds_text(argv[15], argv[17] + ";[1:a]atrim="@)
            &&& exists|chain: Seq<char>| argv[15] == #[trigger] framed(chain, argv[19], Seq::empty())
            &&& argv[17] == "[v]"@ && argv[19] == "[a]"@
            &&& argv[30] == "-r"@ && argv[31] == fps_text(profile.fps)
            &&& argv[34] == plan.intermediates@[k]@
        }),
{
    let segments = edit_segments(clips, sources);
    let seg = segments[k];
    law_segments_play_their_clips(clips, sources, k, i);
    let argv = texts(plan.stage1@[k]@);
    assert(argv == extraction(clips, sources, segments, k, profile, dir));
    let n = budget(segments, k, profile.fps);
    let src_fps = sources[segment_source(clips, seg).0].fps->0;
    let (w, h) = (dec(profile.width as nat), dec(profile.height as nat));
    reveal_strlit(";");
    reveal_strlit("[v]");
    reveal_strlit("[a]");
    reveal_strlit(":(ow-iw)/2:(oh-ih)/2,setsar=1");
    reveal_strlit(":(ow-iw)/2:(oh-ih)/2,setsar=1[v]");
    reveal_strlit("[1:a]atrim=start=");
    reveal_strlit(";[1:a]atrim=");
    reveal_strlit("start=");
    reveal_strlit(",aformat=sample_fmts=s32:channel_layouts=stereo");
    reveal_strlit(",aformat=sample_fmts=s32:channel_layouts=stereo[a]");
    assert(":(ow-iw)/2:(oh-ih)/2,setsar=1"@ + "[v]"@ =~= ":(ow-iw)/2:(oh-ih)/2,setsar=1[v]"@);
    assert(";[1:a]atrim="@ + "start="@ =~= ";"@ + "[1:a]atrim=start="@);
    assert(",aformat=sample_fmts=s32:channel_layouts=stereo"@ + "[a]"@
        =~= ",aformat=sample_fmts=s32:channel_layouts=stereo[a]"@);
    let video = video_chain(n, src_fps, profile);
    let audio = audio_chain(seg.t_start, seg.t_end);
    let before = video.take(video.len() - 3);
    assert(video =~= before + "[v]"@);
    let after = audio.skip("[1:a]atrim="@.len() as int);
    reveal_strlit("[1:a]atrim=");
    assert(argv[15] =~= framed(before, "[v]"@ + ";[1:a]atrim="@, after));
    let chain = argv[15].take(argv[15].len() - 3);
    assert(argv[15] =~= framed(chain, "[a]"@, Seq::empty()));
}

/// The lines of a concat list over file names.
pub open spec fn listing(names: Seq<Seq<char>>) -> Seq<char>
    decreases names.len(),
{
    if names.len() == 0 {
        "ffconcat version 1.0\n"@
    } else {
        listing(names.drop_last()) + "file '"@ + names.last() + "'\n"@
    }
}

/// The final encode reads a list of all the intermediates, in the order of the
/// extractions that wrote them, each under a name of its own in the directory,
/// and writes the output.
pub proof fn law_the_final_encode_reads_every_intermediate(
    plan: FfmpegPlan,
    clips: Seq<ClipView>,
    sources: Map<i64, SourceInfoView>,
    profile: OutputProfile,
    dir: Seq<char>,
    output: Seq<char>,
) -> (names: Seq<Seq<char>>)
    requires
        renders(plan, clips, sources, profile, dir, output),
    ensures
        names.len() == plan.stage1@.len() == plan.intermediates@.len(),
        forall|k: int|
            #![trigger names[k]]
            0 <= k < names.len() ==> plan.intermediates@[k]@ == joined_path(dir, names[k]),
        forall|j: int, k: int|
            #![trigger names[j], names[k]]
            0 <= j < k < names.len() ==> names[j] != names[k],
        plan.concat_list@ == listing(names),
        plan.concat_list_path@ == joined_path(dir, "concat.txt"@),
        plan.stage2@.len() > 10,
        plan.stage2@[6]@ == "-f"@,
        plan.stage2@[7]@ == "concat"@,
        plan.stage2@[8]@ == "-i"@,
        plan.stage2@[9]@ == plan.concat_list_path@,
        plan.stage2@.last()@ == output,
{
    let n = plan.stage1@.len();
    let names = Seq::new(n, |k: int| clip_name(k as nat));
    assert forall|j: int, k: int|
        #![trigger names[j], names[k]]
        0 <= j < k < names.len() implies names[j] != names[k] by {
        lemma_names_differ(j as nat, k as nat);
    }
    lemma_listing(n);
    let argv = texts(plan.stage2@);
    assert(argv[6] == "-f"@ && argv[7] == "concat"@ && argv[8] == "-i"@);
    assert(argv[9] == plan.concat_list_path@);
    assert(argv.last() == output);
    assert(argv.last() == plan.stage2@.last()@);
    names
}

proof fn lemma_listing(n: nat)
    ensures
        concat_text(n) == listing(Seq::new(n, |k: int| clip_name(k as nat))),
    decreases n,
{
    let names = Seq::new(n, |k: int| clip_name(k as nat));
    if n > 0 {
        lemma_listing((n - 1) as nat);
        assert(names.drop_last() =~= Seq::new((n - 1) as nat, |k: int| clip_name(k as nat)));
    }
}

proof fn lemma_names_differ(j: nat, k: nat)
    requires
        j < k,
    ensures
        clip_name(j) != clip_name(k),
{
    reveal_strlit("clip-");
    reveal_strlit(".mov");
    let digits = |n: nat|
        if n < 1000 {
            padded(n, 3)
        } else {
            dec(n)
        };
    assert forall|n: nat| value(#[trigger] digits(n)) == n by {
        reveal_with_fuel(crate::parse::ten_to, 4);
        law_padded_digits_read_back(n, 3);
        law_numerals_read_back(n);
    }
    if clip_name(j) == clip_name(k) {
        let (a, b) = (clip_name(j), clip_name(k));
        assert(a.subrange(5, a.len() - 4) =~= digits(j));
        assert(b.subrange(5, b.len() - 4) =~= digits(k));
        assert(value(digits(j)) == value(digits(k)));
    }
}

/// The final encode is laid out for streaming iff the output is a QuickTime
/// file.
pub proof fn law_quicktime_outputs_start_fast(list: Seq<char>, output: Seq<char>)
    ensures
        ({
            let argv = stage2_texts(list, output, lower_extension(output));
            let n = argv.len() as int;
            let ext = extension_of(output);
            let fast = ext is Some && (lowercased(ext->0) == "mp4"@ || lowercased(ext->0) == "mov"@
                || lowercased(ext->0) == "m4v"@);
            &&& n > 3
            &&& argv[n - 1] == output
            &&& fast ==> argv[n - 3] == "-movflags"@ && argv[n - 2] == "+faststart"@
            &&& !fast ==> argv[n - 2] == "256k"@
        }),
{
}

/// Of two sources the larger in area outranks the other, of equals the wider,
/// of equals still the faster; of equals in all three neither does.
pub proof fn law_larger_sources_outrank(a: VideoProps, b: VideoProps)
    ensures
        ({
            let (small, large) = (a.width * a.height, b.width * b.height);
            let (slow, fast) = (a.fps.num() * b.fps.den(), b.fps.num() * a.fps.den());
            &&& small < large ==> outranks(b, a) && !outranks(a, b)
            &&& small == large && a.width < b.width ==> outranks(b, a) && !outranks(a, b)
            &&& small == large && a.width == b.width && slow < fast ==> outranks(b, a) && !outranks(
                a,
                b,
            )
            &&& small == large && a.width == b.width && slow == fast ==> !outranks(b, a)
                && !outranks(a, b)
        }),
{
}

/// An edit renders iff it compiles, has no transform that only a render could
/// show, and every clip's source has a frame rate.
pub proof fn law_renderable_edits_render(clips: Seq<ClipView>, sources: Map<i64, SourceInfoView>)
    ensures
        render_fault(clips, sources) is None <==> {
            &&& edit_fault(clips, sources) is None
            &&& forall|i: int, j: int|
                #![trigger clips[i].transforms[j]]
                0 <= i < clips.len() && 0 <= j < clips[i].transforms.len()
                    ==> clips[i].transforms[j] is Loop || clips[i].transforms[j] is Stutter
            &&& forall|i: int|
                #![trigger clips[i]]
                0 <= i < clips.len() ==> sources[clips[i].span.source.0].fps is Some
        },
{
    lemma_unsupported(clips);
    if edit_fault(clips, sources) is None {
        let segments = edit_segments(clips, sources);
        lemma_fps_fault(clips, sources, segments);
        assert forall|s: int| #![trigger segments[s]] 0 <= s < segments.len() implies 0
            <= segments[s].first < clips.len() by {
            law_segments_follow_edit_order(clips, sources, s, s);
        }
        if fps_fault(clips, sources, segments) is None {
            assert forall|i: int| #![trigger clips[i]] 0 <= i
                < clips.len() implies sources[clips[i].span.source.0].fps is Some by {
                let s = lemma_clip_has_segment(clips, sources, i);
                lemma_segment_one_source(clips, sources, s, i);
                assert(sources[segment_source(clips, segments[s]).0].fps is Some);
            }
        }
    }
}

proof fn lemma_unsupported(clips: Seq<ClipView>)
    ensures
        unsupported_fault(clips) is None <==> forall|i: int, j: int|
            #![trigger clips[i].transforms[j]]
            0 <= i < clips.len() && 0 <= j < clips[i].transforms.len()
                ==> clips[i].transforms[j] is Loop || clips[i].transforms[j] is Stutter,
    decreases clips.len(),
{
    if clips.len() > 0 {
        let before = clips.drop_last();
        let n = clips.len() - 1;
        lemma_unsupported(before);
        lemma_first_render_only(clips[n].transforms);
        if unsupported_fault(clips) is None {
            assert forall|i: int, j: int|
                #![trigger clips[i].transforms[j]]
                0 <= i < clips.len() && 0 <= j
                    < clips[i].transforms.len() implies clips[i].transforms[j] is Loop
                || clips[i].transforms[j] is Stutter by {
                if i < n {
                    assert(before[i].transforms[j] == clips[i].transforms[j]);
                } else {
                    assert(clips[n].transforms[j] == clips.last().transforms[j]);
                }
            }
        } else if unsupported_fault(before) is Some {
            let (i, j) = choose|i: int, j: int|
                #![trigger before[i].transforms[j]]
                0 <= i < before.len() && 0 <= j < before[i].transforms.len() && !(
                before[i].transforms[j] is Loop || before[i].transforms[j] is Stutter);
            assert(clips[i].transforms[j] == before[i].transforms[j]);
        } else {
            let j = choose|j: int|
                #![trigger clips[n].transforms[j]]
                0 <= j < clips[n].transforms.len() && !(clips[n].transforms[j] is Loop
                    || clips[n].transforms[j] is Stutter);
            assert(!(clips[n].transforms[j] is Loop || clips[n].transforms[j] is Stutter));
        }
    }
}

proof fn lemma_first_render_only(ts: Seq<Transform>)
    ensures
        first_render_only(ts) is None <==> forall|j: int|
            #![trigger ts[j]]
            0 <= j < ts.len() ==> ts[j] is Loop || ts[j] is Stutter,
    decreases ts.len(),
{
    if ts.len() > 0 {
        let before = ts.drop_last();
        lemma_first_render_only(before);
        if first_render_only(ts) is None {
            assert forall|j: int| #![trigger ts[j]] 0 <= j < ts.len() implies ts[j] is Loop
                || ts[j] is Stutter by {
                if j < before.len() {
                    assert(before[j] == ts[j]);
                }
            }
        } else if first_render_only(before) is Some {
            let j = choose|j: int|
                #![trigger before[j]]
                0 <= j < before.len() && !(before[j] is Loop || before[j] is Stutter);
            assert(ts[j] == before[j]);
        } else {
            assert(ts[ts.len() - 1] == ts.last());
        }
    }
}

proof fn lemma_fps_fault(
    clips: Seq<ClipView>,
    sources: Map<i64, SourceInfoView>,
    segments: Seq<SegmentView>,
)
    ensures
        fps_fault(clips, sources, segments) is None <==> forall|s: int|
            #![trigger segments[s]]
            0 <= s < segments.len() ==> sources[clips[segments[s].first].span.source.0].fps is Some,
    decreases segments.len(),
{
    if segments.len() > 0 {
        let before = segments.drop_last();
        lemma_fps_fault(clips, sources, before);
        let last = segments.len() - 1;
        if fps_fault(clips, sources, segments) is None {
            assert forall|s: int| #![trigger segments[s]] 0 <= s
                < segments.len() implies sources[clips[segments[s].first].span.source.0].fps
                is Some by {
                if s < last {
                    assert(before[s] == segments[s]);
                }
            }
        } else if fps_fault(clips, sources, before) is Some {
            let s = choose|s: int|
                #![trigger before[s]]
                0 <= s < before.len()
                    && sources[clips[before[s].first].span.source.0].fps is None;
            assert(segments[s] == before[s]);
        } else {
            assert(segments[last] == segments.last());
        }
    }
}

/// An intermediate is an editing master, of constant rate and with 24-bit sound; the
/// output is an ordinary film, of the first picture and the first sound.
pub proof fn law_intermediates_are_masters_and_outputs_films(
    segment: SegmentView,
    src_fps: Rate,
    f_k: int,
    n_k: int,
    profile: OutputProfile,
    out: Seq<char>,
    list: Seq<char>,
    ext: Option<Seq<char>>,
)
    ensures
        ({
            let argv = stage1_texts(segment, src_fps, f_k, n_k, profile, out);
            &&& argv[20] == "-c:v"@ && argv[21] == "prores_ks"@
            &&& argv[22] == "-profile:v"@ && argv[23] == "3"@
            &&& argv[26] == "-pix_fmt"@ && argv[27] == "yuv422p10le"@
            &&& argv[28] == "-fps_mode"@ && argv[29] == "cfr"@
            &&& argv[32] == "-c:a"@ && argv[33] == "pcm_s24le"@
        }),
        ({
            let argv = stage2_texts(list, out, ext);
            &&& argv[10] == "-map"@ && argv[11] == "0:v:0"@
            &&& argv[12] == "-map"@ && argv[13] == "0:a:0"@
            &&& argv[14] == "-c:v"@ && argv[15] == "libx264"@
            &&& argv[16] == "-crf"@ && argv[17] == "16"@
            &&& argv[20] == "-pix_fmt"@ && argv[21] == "yuv420p"@
            &&& argv[22] == "-c:a"@ && argv[23] == "aac"@
            &&& argv[24] == "-b:a"@ && argv[25] == "256k"@
        }),
{
}

/// What is told of an edit that needs more than can be rendered is the first transform
/// of the kind.
pub proof fn law_unrenderable_transforms_are_named(t: Transform)
    ensures
        render_only(t) is None <==> t is Loop || t is Stutter,
        t is Pitch ==> render_only(t) == Some("Pitch"@),
        t is Speed ==> render_only(t) == Some("Speed"@),
        t is Reverse ==> render_only(t) == Some("Reverse"@),
{
}

} // verus!
