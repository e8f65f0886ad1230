//! Rendering an edit: the output profile, where the intermediates go, whether
//! they fit the disk, and what is told along the way.
use crate::edl::render::{
    outranks, select_profile, FfmpegPlan, OutputProfile, VideoProps, AUDIO_RATE,
};
use crate::hash::{hex_of, sha256, Hasher};
use crate::ingest::{corpus_dir, corpus_dir_of};
use crate::number::{clamp, clamped, fmt_three, nearest, sign_text, three_decimals, Fps, Rate};
use crate::parse::{capped, numeral, read_numeral, scale, scaled, Numeral, NumeralView};
use crate::path::{join_path, joined_path};
use crate::text::{
    chars_of, clone_texts, dec, join, joined, padded, push_dec, push_padded, quoted, string_of,
    texts, trim, trimmed_text,
};
use vstd::prelude::*;
use vstd::string::StringExecFns;
use vstd::utf8::encode_utf8;

verus! {

/// Bits per pixel of the intermediates' video, about.
pub const PRORES_BITS_PER_PIXEL: u32 = 3;

// --------------------------------------------------------------------- profile

/// A profile with the overrides that were asked for.
pub open spec fn overridden(
    profile: OutputProfile,
    size: Option<(u32, u32)>,
    fps: Option<Fps>,
) -> OutputProfile {
    OutputProfile {
        width: match size {
            Some((w, _)) => w,
            None => profile.width,
        },
        height: match size {
            Some((_, h)) => h,
            None => profile.height,
        },
        fps: match fps {
            Some(rate) => rate,
            None => profile.fps,
        },
    }
}

/// The project profile: the largest display area among the video-bearing
/// masters wins, then the overrides are applied.
pub fn resolve_profile(
    videos: &Vec<VideoProps>,
    size: Option<(u32, u32)>,
    fps: Option<Fps>,
) -> (r: Result<OutputProfile, String>)
    ensures
        if videos@.len() == 0 {
            r is Err && r->Err_0@
                == "the edit references no video-bearing source (audio-only render is post-MVP)"@
        } else {
            r is Ok && exists|i: int|
                {
                    &&& 0 <= i < videos@.len()
                    &&& r->Ok_0 == overridden(
                        OutputProfile {
                            width: (#[trigger] videos@[i]).width,
                            height: videos@[i].height,
                            fps: Fps::Rate(videos@[i].fps),
                        },
                        size,
                        fps,
                    )
                    &&& forall|j: int|
                        0 <= j < videos@.len() ==> !outranks(#[trigger] videos@[j], videos@[i])
                    &&& forall|j: int|
                        i < j < videos@.len() ==> outranks(videos@[i], #[trigger] videos@[j])
                }
        },
{
    let mut profile: OutputProfile = match select_profile(videos) {
        Some(profile) => profile,
        None => {
            return Err(
                "the edit references no video-bearing source (audio-only render is post-MVP)".to_owned(),
            );
        },
    };
    let ghost chosen = profile;
    if let Some((width, height)) = size {
        profile.width = width;
        profile.height = height;
    }
    if let Some(rate) = fps {
        profile.fps = rate;
    }
    assert(profile == overridden(chosen, size, fps));
    Ok(profile)
}

/// A number of billionths as a ratio of two 32-bit numbers: with as many
/// decimals as fit, at most nine.
pub open spec fn ratio_of(n: int, den: int) -> (int, int)
    decreases den,
{
    if n <= u32::MAX || den < 10 {
        (n, den)
    } else {
        ratio_of((n + 5) / 10, den / 10)
    }
}

/// The size of a rate that a decimal numeral writes, in as many decimals as
/// fit.
pub open spec fn rate_size(digits: Seq<char>, point: int) -> (int, int) {
    ratio_of(clamped(scaled(digits, point + 9)), 1_000_000_000)
}

/// Whether a text gives no frame rate: it is no numeral, or one beyond what 32
/// bits hold.
pub open spec fn no_fps(s: Seq<char>) -> bool {
    match numeral(s) {
        None => true,
        Some(NumeralView::Decimal { digits, point, .. }) => rate_size(digits, point).0 > u32::MAX,
        Some(_) => false,
    }
}

/// Whether a frame rate is the one that a text gives.
pub open spec fn is_fps(fps: Fps, s: Seq<char>) -> bool {
    match numeral(s) {
        None => false,
        Some(NumeralView::NaN) => fps == Fps::NaN,
        Some(NumeralView::Infinite { negative }) => fps == if negative {
            Fps::NegInfinity
        } else {
            Fps::Infinity
        },
        Some(NumeralView::Decimal { negative, digits, point }) => {
            let (num, den) = rate_size(digits, point);
            match fps {
                Fps::Zero { negative: sign } => num == 0 && sign == negative,
                Fps::Rate(rate) => !negative && rate.num() == num && rate.den() == den,
                Fps::Minus(rate) => negative && rate.num() == num && rate.den() == den,
                _ => false,
            }
        },
    }
}

/// Reads a frame rate such as `29.97`.
pub fn parse_fps(s: &str) -> (r: Result<Fps, String>)
    ensures
        if no_fps(s@) {
            r is Err && r->Err_0@ == crate::text::debug_text(s@) + " is not a frame rate"@
        } else {
            r is Ok && is_fps(r->Ok_0, s@)
        },
{
    match read_numeral(s) {
        Some(Numeral::NaN) => {
            return Ok(Fps::NaN);
        },
        Some(Numeral::Infinite { negative }) => {
            return Ok(
                if negative {
                    Fps::NegInfinity
                } else {
                    Fps::Infinity
                },
            );
        },
        Some(Numeral::Decimal { negative, digits, point }) => {
            let n: i64 = clamp(scale(&digits, point + 9) as i128);
            let mut num: i128 = n as i128;
            let mut den: u32 = 1_000_000_000;
            while num > u32::MAX as i128 && den >= 10
                invariant
                    ratio_of(n as int, 1_000_000_000) == ratio_of(num as int, den as int),
                    0 <= num <= i64::MAX,
                    1 <= den <= 1_000_000_000,
                decreases den,
            {
                num = (num + 5) / 10;
                den = den / 10;
            }
            if num == 0 {
                return Ok(Fps::Zero { negative });
            }
            if num <= u32::MAX as i128 {
                if let Some(rate) = Rate::new(num as u32, den) {
                    return Ok(
                        if negative {
                            Fps::Minus(rate)
                        } else {
                            Fps::Rate(rate)
                        },
                    );
                }
            }
        },
        None => {},
    }
    let mut message: String = quoted(s);
    message.append(" is not a frame rate");
    Err(message)
}

// --------------------------------------------------------------- intermediates

/// The text of a profile that goes into an intermediates key; `fps` is how its
/// rate is written there, with the digits that tell it from every other.
pub open spec fn profile_text(p: OutputProfile, fps: Seq<char>) -> Seq<char> {
    "OutputProfile { width: "@ + dec(p.width as nat) + ", height: "@ + dec(p.height as nat)
        + ", fps: "@ + fps + " }"@
}

fn fmt_profile(p: &OutputProfile, fps: &str) -> (s: String)
    ensures
        s@ == profile_text(*p, fps@),
{
    let mut s: String = "OutputProfile { width: ".to_owned();
    push_dec(&mut s, p.width as u128);
    s.append(", height: ");
    push_dec(&mut s, p.height as u128);
    s.append(", fps: ");
    s.append(fps);
    s.append(" }");
    s
}

/// The first half-digest of an edit's text and a profile, in hexadecimal.
pub open spec fn render_key(edit: Seq<char>, p: OutputProfile, fps: Seq<char>) -> Seq<char> {
    hex_of(sha256(encode_utf8(edit) + encode_utf8(profile_text(p, fps)))).take(16)
}

/// Where an edit's intermediates go: beside the corpus, keyed by the bound edit
/// and the profile with its rate as `fps` writes it, so that concurrent renders
/// never collide and a failed run's leftovers are identifiable.
pub fn intermediates_dir(corpus_db: &str, edit: &str, profile: &OutputProfile, fps: &str) -> (s:
    String)
    ensures
        s@ == joined_path(
            joined_path(corpus_dir_of(corpus_db@), "render"@),
            render_key(edit@, *profile, fps@),
        ),
{
    let mut hasher: Hasher = Hasher::new();
    hasher.update(edit.as_bytes());
    let text: String = fmt_profile(profile, fps);
    hasher.update(text.as_str().as_bytes());
    assert(hasher@ =~= encode_utf8(edit@) + encode_utf8(profile_text(*profile, fps@)));
    let digest: Vec<char> = chars_of(hasher.finish().as_str());
    let key: String = string_of(digest.as_slice(), 0, 16);
    assert(key@ =~= render_key(edit@, *profile, fps@));
    let base: String = join_path(corpus_dir(corpus_db).as_str(), "render");
    join_path(base.as_str(), key.as_str())
}

// ------------------------------------------------------------------- preflight

/// The whole part of `a * t / d`.
pub open spec fn share(a: int, t: int, d: int) -> int {
    a * t / d
}

fn mul_div(a: u128, t: u128, d: u128) -> (r: (u128, u128))
    requires
        0 < d <= 0x1000_0000_0000_0000_0000,
        a <= 0x1000_0000_0000_0000_0000_0000_0000,
    ensures
        r.0 == capped(share(a as int, t as int, d as int)),
        r.1 == (a * t) % (d as int),
    decreases t,
{
    if t == 0 {
        assert(a * 0 == 0);
        assert(0int / (d as int) == 0 && 0int % (d as int) == 0) by {
            vstd::arithmetic::div_mod::lemma_small_mod(0, d as nat);
            vstd::arithmetic::div_mod::lemma_basic_div(0, d as int);
        }
        return (0, 0);
    }
    let (q, r): (u128, u128) = mul_div(a, t / 2, d);
    proof {
        vstd::arithmetic::div_mod::lemma_mod_bound(a * (t / 2) as int, d as int);
    }
    let more: u128 = if t % 2 == 1 {
        a
    } else {
        0
    };
    let rest: u128 = 2 * r + more;
    proof {
        lemma_mul_div_step(a as int, t as int, d as int, more as int, r as int, rest as int);
    }
    (crate::parse::cap(2 * q + rest / d), rest % d)
}

proof fn lemma_mul_div_step(a: int, t: int, d: int, more: int, r: int, rest: int)
    requires
        a >= 0,
        t > 0,
        d > 0,
        more == (if t % 2 == 1 {
            a
        } else {
            0
        }),
        r == (a * (t / 2)) % d,
        rest == 2 * r + more,
    ensures
        share(a, t, d) == 2 * share(a, t / 2, d) + rest / d,
        (a * t) % d == rest % d,
        share(a, t / 2, d) >= 0,
        rest / d >= 0,
{
    let h = t / 2;
    let q = (a * h) / d;
    vstd::arithmetic::div_mod::lemma_fundamental_div_mod(a * h, d);
    vstd::arithmetic::div_mod::lemma_fundamental_div_mod(rest, d);
    vstd::arithmetic::div_mod::lemma_mod_bound(rest, d);
    vstd::arithmetic::div_mod::lemma_mod_bound(a * h, d);
    assert(a * h >= 0) by (nonlinear_arith)
        requires
            a >= 0,
            h >= 0,
    ;
    vstd::arithmetic::div_mod::lemma_div_pos_is_pos(a * h, d);
    vstd::arithmetic::div_mod::lemma_div_pos_is_pos(rest, d);
    assert(a * t == 2 * (a * h) + more) by (nonlinear_arith)
        requires
            t == 2 * h + t % 2,
            t % 2 == 0 || t % 2 == 1,
            more == (if t % 2 == 1 {
                a
            } else {
                0
            }),
    ;
    assert(a * t == (2 * q + rest / d) * d + rest % d) by (nonlinear_arith)
        requires
            a * t == 2 * (a * h) + more,
            a * h == d * q + r,
            rest == 2 * r + more,
            rest == d * (rest / d) + rest % d,
    ;
    vstd::arithmetic::div_mod::lemma_fundamental_div_mod_converse(
        a * t,
        d,
        2 * q + rest / d,
        rest % d,
    );
}

/// Frames in so many seconds, of a rate that is finite.
pub open spec fn rate_terms(fps: Fps) -> (int, int) {
    match fps {
        Fps::Rate(rate) => (rate.num() as int, rate.den() as int),
        Fps::Minus(rate) => (-rate.num(), rate.den() as int),
        _ => (0, 1),
    }
}

/// Bits per second of the intermediates of a profile with a finite rate, times
/// the rate's denominator.
pub open spec fn bit_rate(p: OutputProfile) -> int {
    let (num, den) = rate_terms(p.fps);
    p.width * p.height * PRORES_BITS_PER_PIXEL * num + AUDIO_RATE * 2 * 24 * den
}

/// The bytes that the intermediates of a profile take for a length in
/// nanoseconds, with a quarter added for margin; at least none, and at most
/// what a 64-bit number holds.
pub open spec fn space_needed(p: OutputProfile, length: int) -> int {
    match p.fps {
        Fps::NaN => 0,
        Fps::NegInfinity => 0,
        Fps::Infinity => if p.width > 0 && p.height > 0 && length > 0 {
            u64::MAX as int
        } else {
            0
        },
        _ => {
            let n = share(bit_rate(p) * 5, length, 32_000_000_000 * rate_terms(p.fps).1);
            if bit_rate(p) <= 0 {
                0
            } else if n > u64::MAX {
                u64::MAX as int
            } else {
                n
            }
        },
    }
}

fn needed_bytes(p: &OutputProfile, length: u128) -> (n: u64)
    ensures
        n == space_needed(*p, length as int),
{
    let (num, den, minus): (u32, u32, bool) = match p.fps {
        Fps::NaN => {
            return 0;
        },
        Fps::NegInfinity => {
            return 0;
        },
        Fps::Infinity => {
            return if p.width > 0 && p.height > 0 && length > 0 {
                u64::MAX
            } else {
                0
            };
        },
        Fps::Rate(rate) => {
            let (num, den): (u32, u32) = rate.terms();
            (num, den, false)
        },
        Fps::Minus(rate) => {
            let (num, den): (u32, u32) = rate.terms();
            (num, den, true)
        },
        Fps::Zero { .. } => (0, 1, false),
    };
    let (w, h): (u32, u32) = (p.width, p.height);
    proof {
        lemma_bit_rate_bound(w as int, h as int, num as int);
        assert(w * h * PRORES_BITS_PER_PIXEL * num == w * h * 3 * num);
        assert(w * h * 3 * (-num) == -(w * h * 3 * num)) by (nonlinear_arith);
        assert(w * h * PRORES_BITS_PER_PIXEL * (-num) == w * h * 3 * (-num));
    }
    let area: u128 = w as u128 * h as u128;
    let video: u128 = area * 3 * num as u128;
    let audio: u128 = AUDIO_RATE as u128 * 48 * den as u128;
    assert(AUDIO_RATE * 2 * 24 * den == AUDIO_RATE * 48 * den) by (nonlinear_arith);
    if minus && audio <= video {
        return 0;
    }
    let bits: u128 = (if minus {
        audio - video
    } else {
        video + audio
    }) * 5;
    let d: u128 = 32_000_000_000 * den as u128;
    let (q, _): (u128, u128) = mul_div(bits, length, d);
    proof {
        assert(bits == bit_rate(*p) * 5);
    }
    if q > u64::MAX as u128 {
        u64::MAX
    } else {
        q as u64
    }
}

proof fn lemma_bit_rate_bound(w: int, h: int, num: int)
    requires
        0 <= w <= u32::MAX,
        0 <= h <= u32::MAX,
        0 <= num <= u32::MAX,
    ensures
        0 <= w * h <= u32::MAX * u32::MAX,
        0 <= w * h * 3,
        0 <= w * h * 3 * num <= 3 * u32::MAX * u32::MAX * u32::MAX,
{
    assert(0 <= w * h <= u32::MAX * u32::MAX) by (nonlinear_arith)
        requires
            0 <= w <= u32::MAX,
            0 <= h <= u32::MAX,
    ;
    let x = w * h * 3;
    assert(0 <= x * num <= (3 * u32::MAX * u32::MAX) * u32::MAX) by (nonlinear_arith)
        requires
            0 <= x <= 3 * u32::MAX * u32::MAX,
            0 <= num <= u32::MAX,
    ;
}

/// Fails where the disk has too little room for the intermediates.
pub fn preflight_free_space(profile: &OutputProfile, length: i128, free: u64, dir: &str) -> (r:
    Result<(), String>)
    requires
        length >= 0,
    ensures
        ({
            let needed = space_needed(*profile, length as int);
            if free < needed {
                r is Err && r->Err_0@ == "not enough disk space for intermediates: need ~"@ + dec(
                    (needed / 1_048_576) as nat,
                ) + " MB, "@ + dec((free as int / 1_048_576) as nat) + " MB free at "@ + dir@
            } else {
                r is Ok
            }
        }),
{
    let needed: u64 = needed_bytes(profile, length as u128);
    if free < needed {
        let mut s: String = "not enough disk space for intermediates: need ~".to_owned();
        push_dec(&mut s, (needed / 1_048_576) as u128);
        s.append(" MB, ");
        push_dec(&mut s, (free / 1_048_576) as u128);
        s.append(" MB free at ");
        s.append(dir);
        return Err(s);
    }
    Ok(())
}

// --------------------------------------------------------------------- messages

/// Fails where a bound edit has nothing to render.
pub fn check_clips(clips: usize, edit: &str) -> (r: Result<(), String>)
    ensures
        if clips == 0 {
            r is Err && r->Err_0@ == edit@ + " has no clips — nothing to render"@
        } else {
            r is Ok
        },
{
    if clips == 0 {
        let mut s: String = edit.to_owned();
        s.append(" has no clips — nothing to render");
        return Err(s);
    }
    Ok(())
}

/// What to do about a bind that changed the manifest.
#[derive(Debug, Clone, Copy, PartialEq, Eq, Structural)]
pub enum Relink {
    /// Nothing changed.
    Nothing,
    /// Write the changed manifest back.
    Write,
    /// Tell how to.
    Hint,
}

/// What to do about a bind with the given number of warnings.
pub fn relink(warnings: usize, accepted: bool) -> (r: Relink)
    ensures
        r == if warnings == 0 {
            Relink::Nothing
        } else if accepted {
            Relink::Write
        } else {
            Relink::Hint
        },
{
    if warnings == 0 {
        Relink::Nothing
    } else if accepted {
        Relink::Write
    } else {
        Relink::Hint
    }
}

/// The progress line of an extraction, counted from one.
pub fn clip_progress(i: usize, n: usize) -> (s: String)
    ensures
        s@ == "  clip "@ + dec((i + 1) as nat) + "/"@ + dec(n as nat),
{
    let mut s: String = "  clip ".to_owned();
    push_dec(&mut s, i as u128 + 1);
    s.append("/");
    push_dec(&mut s, n as u128);
    s
}

/// What a failed command tells: its words, and the trimmed end of its output.
pub fn command_failed(argv: &Vec<String>, stderr: &str) -> (s: String)
    ensures
        s@ == joined(texts(argv@), " "@) + " failed: "@ + trimmed_text(stderr@),
{
    let mut s: String = join(argv, " ");
    s.append(" failed: ");
    let trimmed: Vec<char> = trim(&chars_of(stderr));
    let tail: String = string_of(trimmed.as_slice(), 0, trimmed.len());
    assert(tail@ =~= trimmed@);
    s.append(tail.as_str());
    s
}

/// One step of a render.
#[derive(Debug)]
pub enum RenderStep {
    /// Tell the user.
    Say(String),
    /// Run a command.
    Run(Vec<String>),
    /// Write a file.
    Write { path: String, text: String },
}

/// One step of a render, as a value.
pub enum RenderStepView {
    Say(Seq<char>),
    Run(Seq<Seq<char>>),
    Write { path: Seq<char>, text: Seq<char> },
}

impl View for RenderStep {
    type V = RenderStepView;

    open spec fn view(&self) -> RenderStepView {
        match self {
            RenderStep::Say(s) => RenderStepView::Say(s@),
            RenderStep::Run(argv) => RenderStepView::Run(texts(argv@)),
            RenderStep::Write { path, text } => RenderStepView::Write { path: path@, text: text@ },
        }
    }
}

/// Steps as values.
pub open spec fn render_step_views(v: Seq<RenderStep>) -> Seq<RenderStepView> {
    Seq::new(v.len(), |i: int| v[i]@)
}

/// The steps of the first `k` extractions of `n`.
pub open spec fn extractions(stage1: Seq<Vec<String>>, k: int, n: nat) -> Seq<RenderStepView>
    decreases k,
{
    if k <= 0 {
        Seq::empty()
    } else {
        extractions(stage1, k - 1, n).push(
            RenderStepView::Say("  clip "@ + dec(k as nat) + "/"@ + dec(n)),
        ).push(RenderStepView::Run(texts(stage1[k - 1]@)))
    }
}

/// The steps of a plan: every extraction with its progress line, the list of
/// what they wrote, and the final encode.
pub open spec fn steps_of(plan: FfmpegPlan) -> Seq<RenderStepView> {
    extractions(plan.stage1@, plan.stage1@.len() as int, plan.stage1@.len()) + seq![
        RenderStepView::Write { path: plan.concat_list_path@, text: plan.concat_list@ },
        RenderStepView::Say("  final encode"@),
        RenderStepView::Run(texts(plan.stage2@)),
    ]
}

/// The steps of a plan, in order.
pub fn render_steps(plan: &FfmpegPlan) -> (steps: Vec<RenderStep>)
    ensures
        render_step_views(steps@) == steps_of(*plan),
{
    let n: usize = plan.stage1.len();
    let mut steps: Vec<RenderStep> = Vec::new();
    let mut i: usize = 0;
    assert(render_step_views(steps@) =~= extractions(plan.stage1@, 0, n as nat));
    while i < n
        invariant
            i <= n == plan.stage1@.len(),
            render_step_views(steps@) == extractions(plan.stage1@, i as int, n as nat),
        decreases n - i,
    {
        let ghost before = render_step_views(steps@);
        let say = RenderStep::Say(clip_progress(i, n));
        let run = RenderStep::Run(clone_texts(&plan.stage1[i]));
        let ghost added = (say@, run@);
        steps.push(say);
        steps.push(run);
        assert(render_step_views(steps@) =~= before.push(added.0).push(added.1));
        i = i + 1;
    }
    let ghost before = render_step_views(steps@);
    let write = RenderStep::Write {
        path: plan.concat_list_path.as_str().to_owned(),
        text: plan.concat_list.as_str().to_owned(),
    };
    let ghost written = write@;
    steps.push(write);
    steps.push(RenderStep::Say("  final encode".to_owned()));
    steps.push(RenderStep::Run(clone_texts(&plan.stage2)));
    assert(render_step_views(steps@) =~= before + seq![
        written,
        RenderStepView::Say("  final encode"@),
        RenderStepView::Run(texts(plan.stage2@)),
    ]);
    steps
}

/// What a failed render adds to its error.
pub fn render_failed(dir: &str) -> (s: String)
    ensures
        s@ == "render failed — intermediates kept at "@ + dir@,
{
    let mut s: String = "render failed — intermediates kept at ".to_owned();
    s.append(dir);
    s
}

/// A rate with three decimals.
pub open spec fn rate_three(rate: Rate) -> Seq<char> {
    let units = nearest((rate.num() * 1_000) as nat, rate.den() as nat);
    dec(units / 1_000).push('.') + padded(units % 1_000, 3)
}

fn fmt_rate_three(rate: Rate) -> (s: String)
    ensures
        s@ == rate_three(rate),
{
    let (num, den): (u32, u32) = rate.terms();
    let scaled: u64 = num as u64 * 1_000;
    let q: u64 = scaled / den as u64;
    let r: u64 = scaled % den as u64;
    let units: u64 = if 2 * r < den as u64 || (2 * r == den as u64 && q % 2 == 0) {
        q
    } else {
        q + 1
    };
    let mut s: String = String::new();
    push_dec(&mut s, (units / 1_000) as u128);
    s.push('.');
    push_padded(&mut s, (units % 1_000) as u128, 3);
    assert(s@ =~= rate_three(rate));
    s
}

/// A frame rate with three decimals.
pub open spec fn fps_three(fps: Fps) -> Seq<char> {
    match fps {
        Fps::Rate(rate) => rate_three(rate),
        Fps::Minus(rate) => "-"@ + rate_three(rate),
        Fps::Zero { negative } => sign_text(negative) + "0.000"@,
        Fps::NaN => "NaN"@,
        Fps::Infinity => "inf"@,
        Fps::NegInfinity => "-inf"@,
    }
}

fn fmt_fps_three(fps: Fps) -> (s: String)
    ensures
        s@ == fps_three(fps),
{
    match fps {
        Fps::Rate(rate) => fmt_rate_three(rate),
        Fps::Minus(rate) => {
            let mut s: String = "-".to_owned();
            s.append(fmt_rate_three(rate).as_str());
            s
        },
        Fps::Zero { negative } => {
            let mut s: String = if negative {
                "-".to_owned()
            } else {
                "".to_owned()
            };
            s.append("0.000");
            s
        },
        Fps::NaN => "NaN".to_owned(),
        Fps::Infinity => "inf".to_owned(),
        Fps::NegInfinity => "-inf".to_owned(),
    }
}

/// What a finished render tells.
pub fn rendered(output: &str, length: i128, profile: &OutputProfile) -> (s: String)
    ensures
        s@ == "rendered "@ + output@ + " ("@ + three_decimals(length as int) + " s, "@ + dec(
            profile.width as nat,
        ) + "x"@ + dec(profile.height as nat) + " @ "@ + fps_three(profile.fps) + " fps, "@ + dec(
            AUDIO_RATE as nat,
        ) + " Hz stereo)"@,
{
    let mut s: String = "rendered ".to_owned();
    s.append(output);
    s.append(" (");
    s.append(fmt_three(length).as_str());
    s.append(" s, ");
    push_dec(&mut s, profile.width as u128);
    s.append("x");
    push_dec(&mut s, profile.height as u128);
    s.append(" @ ");
    s.append(fmt_fps_three(profile.fps).as_str());
    s.append(" fps, ");
    push_dec(&mut s, AUDIO_RATE as u128);
    s.append(" Hz stereo)");
    s
}

// ---------------------------------------------------------------------- laws

/// What is asked for overrides a profile, the size as a whole and the rate on its
/// own; what is not asked for stays.
pub proof fn law_overrides_replace_what_they_name(p: OutputProfile, w: u32, h: u32, rate: Fps)
    ensures
        overridden(p, None, None) == p,
        overridden(p, Some((w, h)), None) == (OutputProfile { width: w, height: h, fps: p.fps }),
        overridden(p, None, Some(rate)) == (OutputProfile {
            width: p.width,
            height: p.height,
            fps: rate,
        }),
        overridden(p, Some((w, h)), Some(rate)) == (OutputProfile {
            width: w,
            height: h,
            fps: rate,
        }),
{
}

/// The space for a render at a rate: three bits for each pixel of each frame and
/// two channels of 24 bits at 48 kHz, for the whole length, in bytes, and a quarter
/// of that on top; rounded down, unless that is more than 64 bits hold.
pub proof fn law_space_is_for_every_pixel_and_sample(p: OutputProfile, rate: Rate, length: int)
    requires
        p.fps == Fps::Rate(rate),
        rate.positive(),
        length >= 0,
        space_needed(p, length) < u64::MAX,
    ensures
        ({
            let n = space_needed(p, length);
            let bits = p.width * p.height * 3 * rate.num() + 2_304_000 * rate.den();
            let unit = 32_000_000_000 * rate.den();
            n * unit <= (bits * 5) * length < n * unit + unit
        }),
{
    let (num, den) = (rate.num(), rate.den());
    let bits = p.width * p.height * 3 * num + 2_304_000 * den;
    assert(p.width * p.height * 3 * num >= 0) by (nonlinear_arith)
        requires
            num > 0,
            p.width >= 0,
            p.height >= 0,
    ;
    assert(AUDIO_RATE * 2 * 24 * den == 2_304_000 * den);
    assert(bit_rate(p) == bits);
    let unit = 32_000_000_000 * den;
    let x = (bits * 5) * length;
    vstd::arithmetic::div_mod::lemma_fundamental_div_mod(x, unit);
    vstd::arithmetic::div_mod::lemma_mod_bound(x, unit);
    let n = x / unit;
    assert(n * unit == unit * (x / unit)) by (nonlinear_arith)
        requires
            n == x / unit,
    ;
    assert(space_needed(p, length) == n);
}

/// A render extracts every clip, in order and each told before, then writes the list
/// and encodes; nothing else.
pub proof fn law_renders_extract_then_encode(plan: FfmpegPlan, i: int)
    requires
        0 <= i < plan.stage1@.len(),
    ensures
        ({
            let n = plan.stage1@.len() as int;
            let steps = steps_of(plan);
            &&& steps.len() == 2 * n + 3
            &&& steps[2 * i] == RenderStepView::Say(
                "  clip "@ + dec((i + 1) as nat) + "/"@ + dec(n as nat),
            )
            &&& steps[2 * i + 1] == RenderStepView::Run(texts(plan.stage1@[i]@))
            &&& steps[2 * n] == RenderStepView::Write {
                path: plan.concat_list_path@,
                text: plan.concat_list@,
            }
            &&& steps[2 * n + 1] is Say
            &&& steps[2 * n + 2] == RenderStepView::Run(texts(plan.stage2@))
        }),
{
    lemma_extractions(plan.stage1@, plan.stage1@.len() as int, plan.stage1@.len(), i);
}

proof fn lemma_extractions(stage1: Seq<Vec<String>>, k: int, n: nat, i: int)
    requires
        0 <= i < k <= stage1.len(),
    ensures
        extractions(stage1, k, n).len() == 2 * k,
        extractions(stage1, k, n)[2 * i] == RenderStepView::Say(
            "  clip "@ + dec((i + 1) as nat) + "/"@ + dec(n),
        ),
        extractions(stage1, k, n)[2 * i + 1] == RenderStepView::Run(texts(stage1[i]@)),
    decreases k,
{
    lemma_extraction_count(stage1, k - 1, n);
    if i < k - 1 {
        lemma_extractions(stage1, k - 1, n, i);
    }
}

proof fn lemma_extraction_count(stage1: Seq<Vec<String>>, k: int, n: nat)
    requires
        0 <= k,
    ensures
        extractions(stage1, k, n).len() == 2 * k,
    decreases k,
{
    if k > 0 {
        lemma_extraction_count(stage1, k - 1, n);
    }
}

/// A rate that fits is read to the billionth, and a larger one in as many decimals
/// as fit: never more than its numerator's 32 bits, where that can be had.
pub proof fn law_rates_keep_their_decimals(n: int, den: int)
    requires
        n >= 0,
        den > 0,
    ensures
        n <= u32::MAX ==> ratio_of(n, den) == (n, den),
        ratio_of(n, den).0 > u32::MAX ==> ratio_of(n, den).1 < 10,
        ratio_of(n, den).1 >= 1,
    decreases den,
{
    if n > u32::MAX && den >= 10 {
        law_rates_keep_their_decimals((n + 5) / 10, den / 10);
    }
}

/// A whole rate is read exactly.
pub proof fn law_whole_rates_are_read_exactly(w: u32, fps: Fps)
    requires
        w > 0,
        is_fps(fps, dec(w as nat)),
    ensures
        fps matches Fps::Rate(rate) && rate.num() == w * rate.den(),
{
    crate::parse::law_whole_numerals_are_read(w as nat);
    crate::text::law_numerals_read_back(w as nat);
    let d = dec(w as nat);
    let p = d.len() + 9;
    assert(crate::parse::ten_to(9) == 1_000_000_000) by {
        reveal_with_fuel(crate::parse::ten_to, 10);
    }
    assert(scaled(d, p as int) == w * 1_000_000_000);
    lemma_whole_ratio(w as int, 9, 1_000_000_000);
    let (num, den) = rate_size(d, d.len() as int);
    assert((num, den) == ratio_of(w * 1_000_000_000, 1_000_000_000));
    assert(num > 0) by (nonlinear_arith)
        requires
            num == w * den,
            w > 0,
            den >= 1,
    ;
}

proof fn lemma_whole_ratio(w: int, k: nat, den: int)
    requires
        w > 0,
        den == crate::parse::ten_to(k),
    ensures
        ratio_of(w * den, den).0 == w * ratio_of(w * den, den).1,
        ratio_of(w * den, den).1 >= 1,
    decreases k,
{
    if k == 0 {
        assert(den == 1);
    } else {
        let less = crate::parse::ten_to((k - 1) as nat) as int;
        assert(den == 10 * less);
        lemma_ten_positive((k - 1) as nat);
        assert(w * den == 10 * (w * less)) by (nonlinear_arith)
            requires
                den == 10 * less,
        ;
        lemma_whole_ratio(w, (k - 1) as nat, less);
    }
}

proof fn lemma_ten_positive(k: nat)
    ensures
        crate::parse::ten_to(k) >= 1,
    decreases k,
{
    if k > 0 {
        lemma_ten_positive((k - 1) as nat);
    }
}

/// A rate is told with three decimals, to the nearest thousandth.
pub proof fn law_rates_are_told_to_the_thousandth(rate: Rate) -> (units: nat)
    requires
        rate.positive(),
    ensures
        fps_three(Fps::Rate(rate)) == dec(units / 1_000) + "."@ + padded(units % 1_000, 3),
        -rate.den() <= 2 * (units * rate.den() - rate.num() * 1_000) <= rate.den(),
{
    let units = nearest((rate.num() * 1_000) as nat, rate.den() as nat);
    crate::number::law_nearest_is_within_half((rate.num() * 1_000) as nat, rate.den() as nat);
    reveal_strlit(".");
    assert(fps_three(Fps::Rate(rate)) =~= dec(units / 1_000) + "."@ + padded(units % 1_000, 3));
    units
}

/// A profile's text tells its width, its height and its rate apart.
pub proof fn law_profiles_are_told_apart(p: OutputProfile, fps: Seq<char>)
    ensures
        profile_text(p, fps) == "OutputProfile { width: "@ + (dec(p.width as nat) + (", height: "@
            + (dec(p.height as nat) + (", fps: "@ + (fps + " }"@))))),
{
    assert(profile_text(p, fps) =~= "OutputProfile { width: "@ + (dec(p.width as nat) + (
    ", height: "@ + (dec(p.height as nat) + (", fps: "@ + (fps + " }"@))))));
}

} // verus!
