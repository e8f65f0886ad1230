//! The playback master and the analysis wav, in one ffmpeg invocation so that
//! both share one audio stream: `aresample=async=1:first_pts=0` makes the
//! stream contiguous from zero, then splits into the FLAC master encode and
//! the 16 kHz mono analysis wav. Video gets square pixels and a constant
//! standard rate, all-intra for frame-exact seeking.
//!
//! The master is probed afterwards, and ingest fails where a stream's start or
//! an audio discontinuity is off by more than ten milliseconds.
use super::probe::{
    discontinuity, largest_start, max_audio_discontinuity, max_start_offset, numeral_of,
    offset_views, offsets_json, rational_text, Packet, Probe, Stream,
};
use crate::fine::{absolute, exceeding, less, millis_text, Fine};
use crate::number::Rate;
use crate::text::{framed, push_arg, texts};
use vstd::prelude::*;
use vstd::string::StringExecFns;

verus! {

/// The largest timestamp error a master may have, in quintillionths of a second.
pub const MAX_TIMESTAMP_ERROR: i128 = 10_000_000_000_000_000;

/// The record of the normalize stage. The hash is computed exactly once, when
/// the master is created.
#[derive(Debug)]
pub struct MasterInfo {
    pub master_hash: String,
    pub fps: Option<Rate>,
    pub has_video: bool,
    /// Per-stream start offsets, as JSON text.
    pub start_offsets: String,
}

/// The audio filter chain, past its input.
pub open spec fn audio_filter() -> Seq<char> {
    "aresample=async=1:first_pts=0,asplit=2[am][ana];[ana]aresample=16000,aformat=sample_fmts=s16:channel_layouts=mono[wav]"@
}

/// The video part of the arguments: filters and encoder where there is video.
pub open spec fn video_texts(fps: Option<(u32, u32)>) -> Seq<Seq<char>> {
    match fps {
        Some(rate) => seq![
            "-filter_complex"@,
            "[0:v]scale=iw*sar:ih,setsar=1,fps="@ + rational_text(rate) + "[v];[0:a]"@
                + audio_filter(),
            "-map"@,
            "[v]"@,
            "-map"@,
            "[am]"@,
            "-c:v"@,
            "libx264"@,
            "-g"@,
            "1"@,
            "-crf"@,
            "14"@,
            "-preset"@,
            "fast"@,
            "-pix_fmt"@,
            "yuv420p"@,
        ],
        None => seq!["-filter_complex"@, "[0:a]"@ + audio_filter(), "-map"@, "[am]"@],
    }
}

/// The arguments of the normalization. FLAC frames of 576 samples stay under
/// one video frame, so that a cut's audio, which begins at a packet, is within
/// a frame.
pub open spec fn normalize_texts(
    original: Seq<char>,
    fps: Option<(u32, u32)>,
    master: Seq<char>,
    wav: Seq<char>,
) -> Seq<Seq<char>> {
    seq!["-y"@, "-v"@, "error"@, "-i"@, original] + video_texts(fps) + seq![
        "-c:a"@,
        "flac"@,
        "-frame_size"@,
        "576"@,
        "-f"@,
        "matroska"@,
        master,
        "-map"@,
        "[wav]"@,
        "-c:a"@,
        "pcm_s16le"@,
        "-f"@,
        "wav"@,
        wav,
    ]
}

fn push_video(argv: &mut Vec<String>, fps: Option<(u32, u32)>)
    ensures
        texts(final(argv)@) == texts(old(argv)@) + video_texts(fps),
{
    let ghost before = texts(argv@);
    let chain: &str =
        "aresample=async=1:first_pts=0,asplit=2[am][ana];[ana]aresample=16000,aformat=sample_fmts=s16:channel_layouts=mono[wav]";
    push_arg(argv, "-filter_complex");
    match fps {
        Some(rate) => {
            let mut filter: String = "[0:v]scale=iw*sar:ih,setsar=1,fps=".to_owned();
            filter.append(super::probe::fmt_rational(rate).as_str());
            filter.append("[v];[0:a]");
            filter.append(chain);
            push_arg(argv, filter.as_str());
            push_arg(argv, "-map");
            push_arg(argv, "[v]");
            push_arg(argv, "-map");
            push_arg(argv, "[am]");
            push_arg(argv, "-c:v");
            push_arg(argv, "libx264");
            push_arg(argv, "-g");
            push_arg(argv, "1");
            push_arg(argv, "-crf");
            push_arg(argv, "14");
            push_arg(argv, "-preset");
            push_arg(argv, "fast");
            push_arg(argv, "-pix_fmt");
            push_arg(argv, "yuv420p");
            assert(texts(argv@) =~= before + video_texts(fps));
        },
        None => {
            let mut filter: String = "[0:a]".to_owned();
            filter.append(chain);
            push_arg(argv, filter.as_str());
            push_arg(argv, "-map");
            push_arg(argv, "[am]");
            assert(texts(argv@) =~= before + video_texts(fps));
        },
    }
}

/// The arguments of the normalization, for a source with audio.
#[verifier::rlimit(40)]
pub fn normalize_args(original: &str, source: &Probe, master: &str, wav: &str) -> (r: Result<
    Vec<String>,
    String,
>)
    ensures
        if source.has_audio {
            r is Ok && texts(r->Ok_0@) == normalize_texts(original@, source.fps, master@, wav@)
        } else {
            r is Err && r->Err_0@ == "source has no audio stream — nothing to index"@
        },
{
    if !source.has_audio {
        return Err("source has no audio stream — nothing to index".to_owned());
    }
    let mut argv: Vec<String> = Vec::new();
    push_arg(&mut argv, "-y");
    push_arg(&mut argv, "-v");
    push_arg(&mut argv, "error");
    push_arg(&mut argv, "-i");
    push_arg(&mut argv, original);
    assert(texts(argv@) =~= seq!["-y"@, "-v"@, "error"@, "-i"@, original@]);
    push_video(&mut argv, source.fps);
    let ghost head = texts(argv@);
    push_arg(&mut argv, "-c:a");
    push_arg(&mut argv, "flac");
    push_arg(&mut argv, "-frame_size");
    push_arg(&mut argv, "576");
    push_arg(&mut argv, "-f");
    push_arg(&mut argv, "matroska");
    push_arg(&mut argv, master);
    push_arg(&mut argv, "-map");
    push_arg(&mut argv, "[wav]");
    push_arg(&mut argv, "-c:a");
    push_arg(&mut argv, "pcm_s16le");
    push_arg(&mut argv, "-f");
    push_arg(&mut argv, "wav");
    push_arg(&mut argv, wav);
    assert(texts(argv@) =~= normalize_texts(original@, source.fps, master@, wav@));
    Ok(argv)
}

/// What a master with a timestamp error tells.
pub open spec fn pipeline_bug(error: Fine, what: Seq<char>) -> Seq<char> {
    "master has a "@ + millis_text(error) + " ms "@ + what
        + " — dipho pipeline bug, not a source property"@
}

fn check_error(error: Fine, what: &str) -> (r: Result<(), String>)
    ensures
        if exceeding(error, MAX_TIMESTAMP_ERROR as int) {
            r is Err && r->Err_0@ == pipeline_bug(error, what@)
        } else {
            r is Ok
        },
{
    if error.is_above(MAX_TIMESTAMP_ERROR) {
        let mut s: String = "master has a ".to_owned();
        s.append(error.millis().as_str());
        s.append(" ms ");
        s.append(what);
        s.append(" — dipho pipeline bug, not a source property");
        return Err(s);
    }
    Ok(())
}

/// Fails where a stream of the master starts too far from zero.
pub fn check_start_offset(offset: Fine) -> (r: Result<(), String>)
    ensures
        if exceeding(offset, MAX_TIMESTAMP_ERROR as int) {
            r is Err && r->Err_0@ == pipeline_bug(offset, "stream start offset"@)
        } else {
            r is Ok
        },
{
    check_error(offset, "stream start offset")
}

/// Fails where the master's audio has a gap or overlap that is too large.
pub fn check_discontinuity(gap: Fine) -> (r: Result<(), String>)
    ensures
        if exceeding(gap, MAX_TIMESTAMP_ERROR as int) {
            r is Err && r->Err_0@ == pipeline_bug(gap, "audio timestamp discontinuity"@)
        } else {
            r is Ok
        },
{
    check_error(gap, "audio timestamp discontinuity")
}

/// The record of a master that was created from a source.
pub fn master_info(master_hash: String, source: &Probe, master: &Probe) -> (info: MasterInfo)
    ensures
        info.master_hash@ == master_hash@,
        info.fps == source.spec_fps_value(),
        info.has_video == source.has_video,
        info.start_offsets@ == offsets_json(offset_views(master.start_offsets@)),
{
    MasterInfo {
        master_hash,
        fps: source.fps_value(),
        has_video: source.has_video,
        start_offsets: master.start_offsets_json(),
    }
}

/// Whether the recorded stage is trusted on a re-run: all its outputs are there.
pub fn is_normalized(master: bool, wav: bool, record: bool) -> (b: bool)
    ensures
        b == (master && wav && record),
{
    master && wav && record
}

// -------------------------------------------------------------------- the order

/// What the normalization does next.
#[derive(Debug)]
pub enum Step {
    /// Run ffmpeg with these arguments.
    Encode(Vec<String>),
    /// List the streams of what was encoded.
    Probe,
    /// List the audio packets of what was encoded.
    Packets,
    /// Hash the master, move it and the wav into place, and write the record.
    Keep,
}

/// What the normalization does next, as a value.
pub enum StepView {
    Encode(Seq<Seq<char>>),
    Probe,
    Packets,
    Keep,
}

impl View for Step {
    type V = StepView;

    open spec fn view(&self) -> StepView {
        match self {
            Step::Encode(argv) => StepView::Encode(texts(argv@)),
            Step::Probe => StepView::Probe,
            Step::Packets => StepView::Packets,
            Step::Keep => StepView::Keep,
        }
    }
}

/// What came of the last step.
#[derive(Debug)]
pub enum Stepped {
    /// The original was probed.
    Source(Probe),
    /// ffmpeg ended; whether it succeeded.
    Encoded(bool),
    /// The master's streams.
    Streams(Vec<Stream>),
    /// The master's audio packets.
    Packets(Vec<Packet>),
}

/// The step after what came of the last one, or why the normalization fails.
/// The original, the master and the wav are given by their paths.
pub open spec fn step_of(
    original: Seq<char>,
    master: Seq<char>,
    wav: Seq<char>,
    came: Stepped,
) -> Result<StepView, Seq<char>> {
    match came {
        Stepped::Source(source) => if source.has_audio {
            Ok(StepView::Encode(normalize_texts(original, source.fps, master, wav)))
        } else {
            Err("source has no audio stream — nothing to index"@)
        },
        Stepped::Encoded(success) => if success {
            Ok(StepView::Probe)
        } else {
            Err("ffmpeg normalization failed for "@ + original)
        },
        Stepped::Streams(streams) => {
            let offset = largest_start(streams@, streams@.len() as int);
            if exceeding(offset, MAX_TIMESTAMP_ERROR as int) {
                Err(pipeline_bug(offset, "stream start offset"@))
            } else {
                Ok(StepView::Packets)
            }
        },
        Stepped::Packets(packets) => {
            let gap = discontinuity(packets@, packets@.len() as int).0;
            if exceeding(gap, MAX_TIMESTAMP_ERROR as int) {
                Err(pipeline_bug(gap, "audio timestamp discontinuity"@))
            } else {
                Ok(StepView::Keep)
            }
        },
    }
}

/// The step after what came of the last one.
pub fn next_step(original: &str, master: &str, wav: &str, came: &Stepped) -> (r: Result<
    Step,
    String,
>)
    ensures
        match step_of(original@, master@, wav@, *came) {
            Ok(step) => r is Ok && r->Ok_0@ == step,
            Err(e) => r is Err && r->Err_0@ == e,
        },
{
    match came {
        Stepped::Source(source) => match normalize_args(original, source, master, wav) {
            Ok(argv) => Ok(Step::Encode(argv)),
            Err(e) => Err(e),
        },
        Stepped::Encoded(success) => {
            if *success {
                Ok(Step::Probe)
            } else {
                let mut s: String = "ffmpeg normalization failed for ".to_owned();
                s.append(original);
                Err(s)
            }
        },
        Stepped::Streams(streams) => match check_start_offset(max_start_offset(streams)) {
            Ok(()) => Ok(Step::Packets),
            Err(e) => Err(e),
        },
        Stepped::Packets(packets) => match check_discontinuity(max_audio_discontinuity(packets)) {
            Ok(()) => Ok(Step::Keep),
            Err(e) => Err(e),
        },
    }
}

/// A master is kept only where none of its streams starts further from zero
/// than the error allowed.
pub proof fn law_kept_masters_start_on_time(
    original: Seq<char>,
    master: Seq<char>,
    wav: Seq<char>,
    streams: Vec<Stream>,
    i: int,
)
    requires
        step_of(original, master, wav, Stepped::Streams(streams)) is Ok,
        0 <= i < streams@.len(),
        numeral_of(streams@[i].start_time) is Some,
    ensures
        !exceeding(
            absolute(numeral_of(streams@[i].start_time)->0),
            MAX_TIMESTAMP_ERROR as int,
        ),
{
    lemma_starts_below(streams@, streams@.len() as int, i);
}

proof fn lemma_starts_below(streams: Seq<Stream>, n: int, i: int)
    requires
        !exceeding(largest_start(streams, n), MAX_TIMESTAMP_ERROR as int),
        0 <= i < n <= streams.len(),
        numeral_of(streams[i].start_time) is Some,
    ensures
        !exceeding(absolute(numeral_of(streams[i].start_time)->0), MAX_TIMESTAMP_ERROR as int),
    decreases n,
{
    if i < n - 1 {
        lemma_starts_below(streams, n - 1, i);
    }
}

/// A master is kept only where every audio packet begins, within the error
/// allowed, where the one before it ends.
pub proof fn law_kept_masters_are_contiguous(
    original: Seq<char>,
    master: Seq<char>,
    wav: Seq<char>,
    packets: Vec<Packet>,
    i: int,
)
    requires
        step_of(original, master, wav, Stepped::Packets(packets)) is Ok,
        0 <= i < packets@.len(),
        numeral_of(packets@[i].pts_time) is Some,
        discontinuity(packets@, i).1 is Some,
    ensures
        !exceeding(
            absolute(
                less(numeral_of(packets@[i].pts_time)->0, discontinuity(packets@, i).1->0),
            ),
            MAX_TIMESTAMP_ERROR as int,
        ),
{
    lemma_gaps_below(packets@, packets@.len() as int, i);
}

proof fn lemma_gaps_below(packets: Seq<Packet>, n: int, i: int)
    requires
        !exceeding(discontinuity(packets, n).0, MAX_TIMESTAMP_ERROR as int),
        0 <= i < n <= packets.len(),
        numeral_of(packets[i].pts_time) is Some,
        discontinuity(packets, i).1 is Some,
    ensures
        !exceeding(
            absolute(less(numeral_of(packets[i].pts_time)->0, discontinuity(packets, i).1->0)),
            MAX_TIMESTAMP_ERROR as int,
        ),
    decreases n,
{
    if i < n - 1 {
        lemma_gaps_below(packets, n - 1, i);
    }
}

/// Whether a filter graph splits its sound in two, of which `left` is one, and
/// nothing is done to it, and `right` is the other, resampled to 16 kHz, 16 bit
/// and mono.
pub open spec fn splits_into(graph: Seq<char>, left: Seq<char>, right: Seq<char>) -> bool {
    exists|head: Seq<char>, between: Seq<char>|
        graph == #[trigger] framed(
            head,
            ",asplit=2"@ + left + between + ";"@ + between
                + "aresample=16000,aformat=sample_fmts=s16:channel_layouts=mono"@ + right,
            Seq::empty(),
        ) && between != left
}

/// The master gets the sound as it is, and the wav the same sound at 16 kHz in
/// mono: of the arguments up to the master's path, the one mapped last is the
/// half of the split that nothing is done to; the only one mapped from there to
/// the wav's path is the half that is resampled.
pub proof fn law_the_wav_is_mono_and_the_master_is_not_resampled(
    original: Seq<char>,
    fps: Option<(u32, u32)>,
    master: Seq<char>,
    wav: Seq<char>,
)
    ensures
        ({
            let argv = normalize_texts(original, fps, master, wav);
            let n = argv.len() as int;
            let at: int = if fps is Some {
                10
            } else {
                8
            };
            &&& n == if fps is Some {
                35int
            } else {
                23
            }
            &&& argv[3] == "-i"@ && argv[4] == original
            &&& argv[5] == "-filter_complex"@
            &&& fps is Some ==> argv[7] == "-map"@ && argv[8] == "[v]"@
            &&& argv[at - 1] == "-map"@
            &&& argv[n - 8] == master
            &&& argv[n - 7] == "-map"@
            &&& argv[n - 1] == wav
            &&& splits_into(argv[6], argv[at], argv[n - 6])
            &&& argv[at] != argv[n - 6]
            &&& forall|i: int|
                #![trigger argv[i]]
                at < i < n - 1 && i != n - 8 && argv[i] == "-map"@ ==> i == n - 7
            &&& argv[n - 14] == "-c:a"@ && argv[n - 13] == "flac"@
            &&& argv[n - 10] == "-f"@ && argv[n - 9] == "matroska"@
            &&& argv[n - 5] == "-c:a"@ && argv[n - 4] == "pcm_s16le"@
            &&& argv[n - 3] == "-f"@ && argv[n - 2] == "wav"@
        }),
{
    let argv = normalize_texts(original, fps, master, wav);
    let n = argv.len() as int;
    reveal_strlit("aresample=async=1:first_pts=0,asplit=2[am][ana];[ana]aresample=16000,aformat=sample_fmts=s16:channel_layouts=mono[wav]");
    reveal_strlit("aresample=async=1:first_pts=0");
    reveal_strlit(",asplit=2");
    reveal_strlit("[am]");
    reveal_strlit("[ana]");
    reveal_strlit("[wav]");
    reveal_strlit(";");
    reveal_strlit("aresample=16000,aformat=sample_fmts=s16:channel_layouts=mono");
    assert("[am]"@[2] == 'm' && "[ana]"@[2] == 'n');
    assert("[am]"@ != "[ana]"@);
    assert("[am]"@.len() != "[wav]"@.len());
    let part = ",asplit=2"@ + "[am]"@ + "[ana]"@ + ";"@ + "[ana]"@
        + "aresample=16000,aformat=sample_fmts=s16:channel_layouts=mono"@ + "[wav]"@;
    assert(audio_filter() =~= "aresample=async=1:first_pts=0"@ + part);
    let head = match fps {
        Some(rate) => "[0:v]scale=iw*sar:ih,setsar=1,fps="@ + rational_text(rate) + "[v];[0:a]"@
            + "aresample=async=1:first_pts=0"@,
        None => "[0:a]"@ + "aresample=async=1:first_pts=0"@,
    };
    assert(argv[6] =~= framed(head, part, Seq::empty()));
    lemma_no_map();
    assert forall|i: int|
        #![trigger argv[i]]
        (if fps is Some {
            10int
        } else {
            8
        }) < i < n - 1 && i != n - 8 && argv[i] == "-map"@ implies i == n - 7 by {}
}

/// None of the words between the mapped streams is a mapping.
proof fn lemma_no_map()
    ensures
        "-map"@ != "-c:v"@,
        "-map"@ != "libx264"@,
        "-map"@ != "-g"@,
        "-map"@ != "1"@,
        "-map"@ != "-crf"@,
        "-map"@ != "14"@,
        "-map"@ != "-preset"@,
        "-map"@ != "fast"@,
        "-map"@ != "-pix_fmt"@,
        "-map"@ != "yuv420p"@,
        "-map"@ != "-c:a"@,
        "-map"@ != "flac"@,
        "-map"@ != "-frame_size"@,
        "-map"@ != "576"@,
        "-map"@ != "-f"@,
        "-map"@ != "matroska"@,
        "-map"@ != "[wav]"@,
        "-map"@ != "pcm_s16le"@,
        "-map"@ != "wav"@,
{
    reveal_strlit("-map");
    reveal_strlit("-c:v");
    reveal_strlit("libx264");
    reveal_strlit("-g");
    reveal_strlit("1");
    reveal_strlit("-crf");
    reveal_strlit("14");
    reveal_strlit("-preset");
    reveal_strlit("fast");
    reveal_strlit("-pix_fmt");
    reveal_strlit("yuv420p");
    reveal_strlit("-c:a");
    reveal_strlit("flac");
    reveal_strlit("-frame_size");
    reveal_strlit("576");
    reveal_strlit("-f");
    reveal_strlit("matroska");
    reveal_strlit("[wav]");
    reveal_strlit("pcm_s16le");
    reveal_strlit("wav");
    assert("-map"@.len() == 4 && "1"@.len() == 1);
    assert("-map"@[1] == 'm');
    assert("-c:v"@[1] == 'c');
    assert("-crf"@[1] == 'c');
    assert("fast"@[1] == 'a');
    assert("-c:a"@[1] == 'c');
    assert("flac"@[1] == 'l');
}

/// A stream's start in quintillionths of a second, where it is reported as a
/// number.
pub open spec fn start_atto(s: Stream) -> Option<int> {
    match numeral_of(s.start_time) {
        Some(Fine::Atto(n)) => Some(n as int),
        _ => None,
    }
}

/// Streams whose starts are all numbers pass iff each lies within ten
/// milliseconds of zero, either way.
pub proof fn law_masters_pass_iff_they_start_on_time(
    original: Seq<char>,
    master: Seq<char>,
    wav: Seq<char>,
    streams: Vec<Stream>,
)
    requires
        forall|i: int|
            #![trigger streams@[i]]
            0 <= i < streams@.len() ==> numeral_of(streams@[i].start_time) is None || (start_atto(
                streams@[i],
            ) matches Some(n) && -1_000_000_000_000_000_000_000 <= n
                <= 1_000_000_000_000_000_000_000),
    ensures
        step_of(original, master, wav, Stepped::Streams(streams)) is Ok <==> forall|i: int|
            #![trigger streams@[i]]
            0 <= i < streams@.len() && start_atto(streams@[i]) is Some ==> -10_000_000_000_000_000
                <= start_atto(streams@[i])->0 <= 10_000_000_000_000_000,
{
    lemma_largest_start(streams@, streams@.len() as int);
}

proof fn lemma_largest_start(streams: Seq<Stream>, n: int)
    requires
        0 <= n <= streams.len(),
        forall|i: int|
            #![trigger streams[i]]
            0 <= i < streams.len() ==> numeral_of(streams[i].start_time) is None || (start_atto(
                streams[i],
            ) matches Some(n) && -1_000_000_000_000_000_000_000 <= n
                <= 1_000_000_000_000_000_000_000),
    ensures
        largest_start(streams, n) is Atto,
        exceeding(largest_start(streams, n), 10_000_000_000_000_000) <==> exists|i: int|
            #![trigger streams[i]]
            0 <= i < n && start_atto(streams[i]) is Some && !(-10_000_000_000_000_000
                <= start_atto(streams[i])->0 <= 10_000_000_000_000_000),
    decreases n,
{
    if n > 0 {
        lemma_largest_start(streams, n - 1);
        let s = streams[n - 1];
        if exceeding(largest_start(streams, n - 1), 10_000_000_000_000_000) {
            let i = choose|i: int|
                #![trigger streams[i]]
                0 <= i < n - 1 && start_atto(streams[i]) is Some && !(-10_000_000_000_000_000
                    <= start_atto(streams[i])->0 <= 10_000_000_000_000_000);
            assert(0 <= i < n && start_atto(streams[i]) is Some);
        }
    }
}

/// Where every packet has a time and a length that are numbers, a master passes
/// iff each packet begins within ten milliseconds of where the one before it
/// ends.
pub proof fn law_masters_pass_iff_their_packets_abut(
    original: Seq<char>,
    master: Seq<char>,
    wav: Seq<char>,
    packets: Vec<Packet>,
    pts: Seq<int>,
    lens: Seq<int>,
)
    requires
        pts.len() == lens.len() == packets@.len(),
        forall|i: int|
            #![trigger packets@[i]]
            0 <= i < packets@.len() ==> numeral_of(packets@[i].pts_time) == Some(
                Fine::Atto(pts[i] as i128),
            ) && numeral_of(packets@[i].duration_time) == Some(Fine::Atto(lens[i] as i128)),
        forall|i: int|
            #![trigger pts[i]]
            #![trigger lens[i]]
            0 <= i < pts.len() ==> -1_000_000_000_000_000_000_000_000_000_000 <= pts[i]
                <= 1_000_000_000_000_000_000_000_000_000_000
                && -1_000_000_000_000_000_000_000_000_000_000 <= lens[i]
                <= 1_000_000_000_000_000_000_000_000_000_000,
    ensures
        step_of(original, master, wav, Stepped::Packets(packets)) is Ok <==> forall|i: int, j: int|
            #![trigger pts[i], pts[j]]
            0 <= i && j == i + 1 && j < pts.len() ==> -10_000_000_000_000_000 <= pts[j] - (pts[i]
                + lens[i]) <= 10_000_000_000_000_000,
{
    lemma_discontinuity(packets@, pts, lens, packets@.len() as int);
}

proof fn lemma_discontinuity(packets: Seq<Packet>, pts: Seq<int>, lens: Seq<int>, n: int)
    requires
        0 <= n <= packets.len(),
        pts.len() == lens.len() == packets.len(),
        forall|i: int|
            #![trigger packets[i]]
            0 <= i < packets.len() ==> numeral_of(packets[i].pts_time) == Some(
                Fine::Atto(pts[i] as i128),
            ) && numeral_of(packets[i].duration_time) == Some(Fine::Atto(lens[i] as i128)),
        forall|i: int|
            #![trigger pts[i]]
            #![trigger lens[i]]
            0 <= i < pts.len() ==> -1_000_000_000_000_000_000_000_000_000_000 <= pts[i]
                <= 1_000_000_000_000_000_000_000_000_000_000
                && -1_000_000_000_000_000_000_000_000_000_000 <= lens[i]
                <= 1_000_000_000_000_000_000_000_000_000_000,
    ensures
        discontinuity(packets, n).0 is Atto,
        discontinuity(packets, n).1 == (if n == 0 {
            None
        } else {
            Some(Fine::Atto((pts[n - 1] + lens[n - 1]) as i128))
        }),
        exceeding(discontinuity(packets, n).0, 10_000_000_000_000_000) <==> exists|i: int, j: int|
            #![trigger pts[i], pts[j]]
            0 <= i && j == i + 1 && j < n && !(-10_000_000_000_000_000 <= pts[j] - (pts[i]
                + lens[i]) <= 10_000_000_000_000_000),
    decreases n,
{
    if n > 0 {
        lemma_discontinuity(packets, pts, lens, n - 1);
        assert(numeral_of(packets[n - 1].pts_time) is Some);
        assert(pts[n - 1] == pts[n - 1] && lens[n - 1] == lens[n - 1]);
        if n > 1 {
            assert(pts[n - 2] == pts[n - 2] && lens[n - 2] == lens[n - 2]);
        }
        if exceeding(discontinuity(packets, n - 1).0, 10_000_000_000_000_000) {
            let (i, j) = choose|i: int, j: int|
                #![trigger pts[i], pts[j]]
                0 <= i && j == i + 1 && j < n - 1 && !(-10_000_000_000_000_000 <= pts[j] - (pts[i]
                    + lens[i]) <= 10_000_000_000_000_000);
            assert(0 <= i && j == i + 1 && j < n && pts[i] == pts[i] && pts[j] == pts[j]);
        }
    }
}

/// A source with video is encoded at its own rate, with square pixels, every frame a
/// key frame; one without has no video part. Either way the sound begins at zero, its
/// gaps filled, and the master's is lossless in short frames.
pub proof fn law_masters_keep_their_rate(
    original: Seq<char>,
    fps: Option<(u32, u32)>,
    master: Seq<char>,
    wav: Seq<char>,
)
    ensures
        ({
            let argv = normalize_texts(original, fps, master, wav);
            let n = argv.len() as int;
            let sound = "[0:a]aresample=async=1:first_pts=0,asplit=2"@;
            &&& fps matches Some(rate) ==> {
                &&& crate::text::begins(
                    argv[6],
                    "[0:v]scale=iw*sar:ih,setsar=1,fps="@ + crate::text::dec(rate.0 as nat) + "/"@
                        + crate::text::dec(rate.1 as nat) + "[v];"@ + sound,
                )
                &&& argv[11] == "-c:v"@ && argv[12] == "libx264"@
                &&& argv[13] == "-g"@ && argv[14] == "1"@
                &&& argv[15] == "-crf"@ && argv[16] == "14"@
                &&& argv[19] == "-pix_fmt"@ && argv[20] == "yuv420p"@
            }
            &&& fps is None ==> crate::text::begins(argv[6], sound)
            &&& argv[n - 12] == "-frame_size"@ && argv[n - 11] == "576"@
        }),
{
    let argv = normalize_texts(original, fps, master, wav);
    let sound = "[0:a]aresample=async=1:first_pts=0,asplit=2"@;
    let filter = audio_filter();
    reveal_strlit("[0:a]aresample=async=1:first_pts=0,asplit=2");
    reveal_strlit(
        "aresample=async=1:first_pts=0,asplit=2[am][ana];[ana]aresample=16000,aformat=sample_fmts=s16:channel_layouts=mono[wav]",
    );
    reveal_strlit("[0:a]");
    reveal_strlit("[v];[0:a]");
    reveal_strlit("[v];");
    assert(("[0:a]"@ + filter).take(sound.len() as int) =~= sound);
    assert("[v];[0:a]"@ =~= "[v];"@ + "[0:a]"@);
    if let Some(rate) = fps {
        let head = "[0:v]scale=iw*sar:ih,setsar=1,fps="@ + crate::text::dec(rate.0 as nat) + "/"@
            + crate::text::dec(rate.1 as nat) + "[v];"@;
        let graph = argv[6];
        assert(graph =~= head + ("[0:a]"@ + filter));
        let all = head + sound;
        assert(graph.take(all.len() as int) =~= head + ("[0:a]"@ + filter).take(
            sound.len() as int,
        ));
    }
}

/// A source is encoded iff it has sound, at its own rate and into its own files; then
/// its streams are probed, and where they start on time its packets; a failed encode
/// is told.
pub proof fn law_normalization_goes_step_by_step(
    original: Seq<char>,
    master: Seq<char>,
    wav: Seq<char>,
    source: Probe,
)
    ensures
        step_of(original, master, wav, Stepped::Source(source)) is Ok <==> source.has_audio,
        source.has_audio ==> step_of(original, master, wav, Stepped::Source(source)) == Ok::<
            StepView,
            Seq<char>,
        >(StepView::Encode(normalize_texts(original, source.fps, master, wav))),
        step_of(original, master, wav, Stepped::Encoded(true)) == Ok::<StepView, Seq<char>>(
            StepView::Probe,
        ),
        step_of(original, master, wav, Stepped::Encoded(false)) is Err,
        forall|streams: Vec<Stream>|
            (#[trigger] step_of(original, master, wav, Stepped::Streams(streams))) matches Ok(next)
                ==> next is Packets,
        forall|packets: Vec<Packet>|
            (#[trigger] step_of(original, master, wav, Stepped::Packets(packets))) matches Ok(next)
                ==> next is Keep,
{
}

} // verus!
