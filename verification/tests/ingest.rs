use dipho::corpus::loader::LoadReport;
use dipho::ingest::normalize::{
    check_discontinuity, check_start_offset, is_normalized, master_info, next_step,
    normalize_args, Step, Stepped,
};
use dipho::ingest::origin::{
    classify, download_args, file_origin_id, pick_download, probe_args, sanitize, url_origin_id,
    Input,
};
use dipho::ingest::probe::{
    max_audio_discontinuity, max_start_offset, nearest_standard_fps, probe, Packet, Probe, Stream,
};
use dipho::ingest::report::{
    dimension_args, packet_args, read_packets, read_streams, report_failed, stream_args,
    video_dimensions,
};
use dipho::ingest::sidecar::{sidecar_args, sidecar_dir, Sidecar};
use dipho::ingest::stages::{Ingest, Outcome, Task};
use dipho::ingest::{already_ingested, corpus_dir, loaded, source_meta, workdir};
use dipho::fine::{parse_fine, Fine};
use dipho::number::Rate;
use dipho::span::SourceId;

#[test]
fn rounds_to_standard_rates() {
    assert_eq!(nearest_standard_fps("30000/1001"), Some((30000, 1001)));
    assert_eq!(nearest_standard_fps("2997/100"), Some((30000, 1001)));
    assert_eq!(nearest_standard_fps("24/1"), Some((24, 1)));
    assert_eq!(nearest_standard_fps("23976/1000"), Some((24000, 1001)));
    assert_eq!(nearest_standard_fps("26/1"), Some((25, 1)));
    assert_eq!(nearest_standard_fps("0/0"), None);
    assert_eq!(nearest_standard_fps("nonsense"), None);
}

fn stream(codec_type: &str, index: &str, start: Option<&str>, rate: Option<&str>) -> Stream {
    Stream {
        codec_type: codec_type.to_string(),
        index: index.to_string(),
        start_time: start.map(str::to_string),
        attached_pic: false,
        avg_frame_rate: rate.map(str::to_string),
    }
}

#[test]
fn cover_art_is_no_video() {
    let mut art = stream("video", "1", Some("0.000000"), Some("90000/1"));
    art.attached_pic = true;
    let p = probe(&vec![stream("audio", "0", Some("0.023000"), None), art]);
    assert!(p.has_audio && !p.has_video);
    assert_eq!(p.fps, None);
    let p = probe(&vec![
        stream("video", "0", Some("0.000000"), Some("30/1")),
        stream("audio", "1", Some("0.023000"), None),
    ]);
    assert!(p.has_audio && p.has_video);
    assert_eq!(p.fps, Some((30, 1)));
    assert_eq!(p.fps_value(), Rate::new(30, 1));
    assert_eq!(p.fps_rational().as_deref(), Some("30/1"));
}

fn millis(n: i128) -> Fine {
    Fine::Atto(n * 1_000_000_000_000_000)
}

#[test]
fn the_largest_start_offset_counts_either_way() {
    let streams = vec![
        stream("video", "0", Some("0.000000"), Some("30/1")),
        stream("audio", "1", Some("-0.023000"), None),
        stream("audio", "2", None, None),
    ];
    assert_eq!(max_start_offset(&streams), millis(23));
    assert_eq!(max_start_offset(&Vec::new()), millis(0));
}

fn packet(pts: &str, duration: &str) -> Packet {
    Packet { pts_time: Some(pts.to_string()), duration_time: Some(duration.to_string()) }
}

#[test]
fn the_largest_gap_between_packets_is_the_discontinuity() {
    let steady = vec![packet("0.000", "0.012"), packet("0.012", "0.012"), packet("0.024", "0.012")];
    assert_eq!(max_audio_discontinuity(&steady), millis(0));
    let gapped = vec![packet("0.000", "0.012"), packet("0.512", "0.012")];
    assert_eq!(max_audio_discontinuity(&gapped), millis(500));
}

#[test]
fn a_master_off_by_over_ten_milliseconds_is_a_bug() {
    assert_eq!(check_start_offset(millis(10)), Ok(()));
    assert!(check_start_offset(millis(11)).unwrap_err().contains("11.0 ms"));
    // A fraction of a nanosecond over is over.
    let over = vec![stream("audio", "0", Some("0.0100000004"), None)];
    assert_eq!(max_start_offset(&over), parse_fine("0.0100000004").unwrap());
    assert_eq!(
        check_start_offset(max_start_offset(&over)).unwrap_err(),
        "master has a 10.0 ms stream start offset — dipho pipeline bug, not a source property"
    );
    let gap = vec![packet("0", "0.0000000001"), packet("0.0100000002", "0")];
    assert!(check_discontinuity(max_audio_discontinuity(&gap)).is_err());
    assert_eq!(check_discontinuity(millis(0)), Ok(()));
    assert!(check_discontinuity(millis(500)).unwrap_err().contains("500.0 ms"));
}

#[test]
fn inputs_are_urls_or_existing_files() {
    assert!(matches!(classify("https://a.b/c", false), Ok(Input::Url(u)) if u == "https://a.b/c"));
    assert!(matches!(classify("clip.mp4", true), Ok(Input::File(p)) if p == "clip.mp4"));
    assert!(classify("clip.mp4", false).unwrap_err().contains("clip.mp4"));
    assert_eq!(Input::File("clip.mp4".to_string()).text(), "clip.mp4");
}

#[test]
fn origin_ids_name_where_a_source_came_from() {
    assert_eq!(url_origin_id("youtube:abc123\n", "https://a.b/c").unwrap(), "ytdlp:youtube:abc123");
    assert!(url_origin_id("\n", "https://a.b/c").is_err());
    assert!(url_origin_id("nocolon\n", "https://a.b/c").is_err());
    assert!(file_origin_id("00ff").ends_with("00ff"));
    assert_eq!(sanitize("ytdlp:youtube:a/b c"), "ytdlp-youtube-a-b-c");
    assert!(probe_args("https://a.b/c").iter().any(|a| a == "https://a.b/c"));
    let argv = download_args("/w/download.%(ext)s", "https://a.b/c");
    assert!(argv.iter().any(|a| a == "/w/download.%(ext)s"));
    assert!(argv.iter().any(|a| a == "https://a.b/c"));
}

#[test]
fn exactly_one_download_is_expected() {
    let names = |v: &[&str]| v.iter().map(|s| s.to_string()).collect::<Vec<String>>();
    assert_eq!(pick_download(&names(&["a.json", "download.mkv"])), Ok(1));
    assert!(pick_download(&names(&["a.json"])).is_err());
    assert!(pick_download(&names(&["download.mkv", "download.part"])).is_err());
}

#[test]
fn each_source_has_its_own_working_directory() {
    assert_eq!(corpus_dir("/c/corpus.db"), "/c");
    assert_eq!(corpus_dir("corpus.db"), ".");
    assert_eq!(workdir("/c/corpus.db", "file:00ff"), "/c/ingest/file-00ff");
    assert_eq!(already_ingested(None, false), None);
    assert_eq!(already_ingested(Some(3), true), None);
    assert!(already_ingested(Some(3), false).unwrap().contains('3'));
}

fn video_probe() -> Probe {
    Probe { has_audio: true, has_video: true, fps: Some((30000, 1001)), start_offsets: Vec::new() }
}

#[test]
fn masters_are_constant_rate_and_all_intra() {
    let argv = normalize_args("in.mp4", &video_probe(), "m.mkv", "a.wav").unwrap();
    let filter = &argv[argv.iter().position(|a| a == "-filter_complex").unwrap() + 1];
    assert!(filter.starts_with("[0:v]scale=iw*sar:ih,setsar=1,fps=30000/1001[v];"), "{filter}");
    assert!(argv.windows(2).any(|w| w[0] == "-g" && w[1] == "1"));
    assert_eq!(argv.last().map(String::as_str), Some("a.wav"));
    let sound = Probe { has_video: false, fps: None, ..video_probe() };
    let argv = normalize_args("in.mp3", &sound, "m.mkv", "a.wav").unwrap();
    assert!(!argv.iter().any(|a| a == "libx264"));
    let mute = Probe { has_audio: false, ..video_probe() };
    assert!(normalize_args("in.mp4", &mute, "m.mkv", "a.wav").is_err());
}

#[test]
fn what_was_normalized_is_kept() {
    assert!(is_normalized(true, true, true));
    assert!(!is_normalized(true, true, false));
    assert!(!is_normalized(false, true, true));
    let master = probe(&vec![stream("audio", "0", Some("0.003"), None)]);
    let info = master_info("00ff".to_string(), &video_probe(), &master);
    assert_eq!(info.fps, Rate::new(30000, 1001));
    let url = Input::Url("https://a.b/c".to_string());
    let meta = source_meta(&url, "ytdlp:a:b", "/c/ingest/x", info);
    assert_eq!(meta.origin, "https://a.b/c");
    assert_eq!(meta.origin_id, "ytdlp:a:b");
    assert_eq!(meta.master_path, "/c/ingest/x/master.mkv");
    assert_eq!(meta.master_hash, "00ff");
    assert_eq!(meta.start_offsets.as_deref(), Some("{\"audio:0\":0.003}"));
    let report = LoadReport {
        source_id: SourceId(4),
        speakers: 2,
        utterances: 5,
        words: 10,
        phones: 33,
        diphones: 24,
    };
    assert!(loaded(&report).contains("24 diphones"), "{}", loaded(&report));
}

#[test]
fn the_sidecar_is_where_it_was_asked_for() {
    let asked = Some("/opt/sidecar".to_string());
    assert_eq!(sidecar_dir(&asked, true, &None), Ok("/opt/sidecar".to_string()));
    assert!(sidecar_dir(&None, true, &None).is_ok());
    assert_eq!(sidecar_dir(&None, false, &Some("/src/sidecar".to_string())), Ok("/src/sidecar".to_string()));
    assert!(sidecar_dir(&None, false, &None).is_err());
    let argv = sidecar_args("/opt/sidecar", "/c/ingest/x");
    assert!(argv.iter().any(|a| a == "/opt/sidecar"));
    assert!(argv.iter().any(|a| a == "/c/ingest/x"));
}

#[test]
fn sidecar_lines_report_progress_and_outcome() {
    let mut s = Sidecar::new();
    assert_eq!(
        s.line("{\"stage\":\"asr\",\"pct\":40}").as_deref(),
        Some("  asr           40%")
    );
    assert_eq!(
        s.line("{\"stage\":\"align\",\"pct\":100,\"skipped\":true}").as_deref(),
        Some("  align        100% (cached)")
    );
    assert_eq!(s.line("chatter"), None);
    // Success without the closing line is no success.
    assert!(s.finish(true, "exit status: 0", "/w/log").is_err());
    assert_eq!(s.line("{\"done\":true}"), None);
    assert_eq!(s.finish(true, "exit status: 0", "/w/log"), Ok(()));
    assert!(s.finish(false, "exit status: 1", "/w/log").unwrap_err().contains("exit status: 1"));
}

#[test]
fn sidecar_errors_name_their_stage() {
    let mut s = Sidecar::new();
    s.line("{\"error\":{\"stage\":\"align\",\"message\":\"no model\"}}");
    let e = s.finish(false, "exit status: 1", "/w/log").unwrap_err();
    assert!(e.contains("align: no model"), "{e}");
}

fn ingest(force: bool) -> Ingest {
    Ingest { db: "/c/corpus.db".to_string(), origin_id: "sha256:00ff".to_string(), force }
}

#[test]
fn known_origins_are_left_alone_unless_forced() {
    let (lines, task) = ingest(false).next(&Outcome::Identified);
    assert_eq!(lines, vec!["origin_id: sha256:00ff"]);
    assert!(matches!(task, Task::LookUp { dir } if dir == "/c"));
    let (lines, task) = ingest(false).next(&Outcome::Found(Some(3)));
    assert_eq!(lines, vec!["already ingested as source 3 — use --force to re-ingest"]);
    assert!(matches!(task, Task::Finish));
    for (force, found) in [(true, Some(3)), (false, None)] {
        let (lines, task) = ingest(force).next(&Outcome::Found(found));
        assert!(lines.is_empty());
        assert!(matches!(task, Task::Prepare { workdir } if workdir == "/c/ingest/sha256-00ff"));
    }
}

#[test]
fn finished_stages_are_skipped() {
    let next = |outcome: Outcome| ingest(false).next(&outcome);
    assert!(matches!(next(Outcome::Prepared { original: true }).1, Task::Inspect));
    assert!(matches!(next(Outcome::Prepared { original: false }).1, Task::Fetch));
    assert!(matches!(next(Outcome::Fetched).1, Task::Inspect));
    let inspected = |record: bool| Outcome::Inspected { master: true, wav: true, record };
    let (lines, task) = next(inspected(true));
    assert_eq!(lines, vec!["  master       cached"]);
    assert!(matches!(task, Task::Resume));
    assert!(matches!(next(inspected(false)).1, Task::Normalize));
    assert!(matches!(next(Outcome::Normalized).1, Task::Analyze));
    assert!(matches!(next(Outcome::Analyzed).1, Task::Load));
}

#[test]
fn a_master_is_kept_only_after_every_check() {
    let next = |came: Stepped| next_step("in.mp4", "m.mkv", "a.wav", &came);
    assert!(matches!(next(Stepped::Source(video_probe())), Ok(Step::Encode(_))));
    assert!(matches!(next(Stepped::Encoded(true)), Ok(Step::Probe)));
    assert_eq!(
        next(Stepped::Encoded(false)).unwrap_err(),
        "ffmpeg normalization failed for in.mp4"
    );
    let on_time = vec![stream("audio", "0", Some("0.000000"), None)];
    assert!(matches!(next(Stepped::Streams(on_time)), Ok(Step::Packets)));
    let late = vec![stream("audio", "0", Some("0.023000"), None)];
    assert!(next(Stepped::Streams(late)).unwrap_err().contains("stream start offset"));
    let steady = vec![packet("0.000", "0.012"), packet("0.012", "0.012")];
    assert!(matches!(next(Stepped::Packets(steady)), Ok(Step::Keep)));
    let gapped = vec![packet("0.000", "0.012"), packet("0.512", "0.012")];
    assert!(next(Stepped::Packets(gapped)).unwrap_err().contains("discontinuity"));
}

#[test]
fn stream_reports_are_read() {
    let report = "{\"streams\": [
        {\"index\": 0, \"codec_type\": \"video\", \"avg_frame_rate\": \"30000/1001\",
         \"start_time\": \"0.000000\", \"disposition\": {\"attached_pic\": 0}},
        {\"index\": 1, \"codec_type\": \"audio\", \"start_time\": \"0.023\"},
        {\"index\": 2, \"codec_type\": \"video\", \"avg_frame_rate\": \"0/0\",
         \"disposition\": {\"attached_pic\": 1}},
        {\"index\": \"x\\ny\"},
        7
    ]}";
    let streams = read_streams(report).unwrap();
    assert_eq!(streams.len(), 5);
    assert_eq!(streams[0].codec_type, "video");
    assert_eq!(streams[0].index, "0");
    assert_eq!(streams[0].avg_frame_rate.as_deref(), Some("30000/1001"));
    assert_eq!(streams[0].start_time.as_deref(), Some("0.000000"));
    assert!(!streams[0].attached_pic);
    assert_eq!(streams[1].avg_frame_rate, None);
    assert!(streams[2].attached_pic);
    assert_eq!(streams[3].codec_type, "");
    assert_eq!(streams[3].index, "\"x\\ny\"");
    assert_eq!(streams[4].index, "null");
    let p = probe(&streams);
    assert!(p.has_audio && p.has_video);
    assert_eq!(p.fps, Some((30000, 1001)));
    assert_eq!(max_start_offset(&streams), millis(23));
    // Entries are sorted by name.
    assert_eq!(
        p.start_offsets_json(),
        "{\":\\\"x\\\\ny\\\"\":0.0,\":null\":0.0,\"audio:1\":0.023,\"video:0\":0.0,\"video:2\":0.0}"
    );
}

#[test]
fn broken_reports_are_refused() {
    assert_eq!(read_streams("{}").unwrap_err(), "ffprobe: no streams array");
    assert_eq!(read_streams("{\"streams\": 3}").unwrap_err(), "ffprobe: no streams array");
    assert_eq!(read_packets("{\"streams\": []}").unwrap_err(), "ffprobe: no packets array");
    assert_eq!(
        read_streams("{\"streams\"").unwrap_err(),
        "EOF while parsing an object at line 1 column 10"
    );
    assert!(read_packets("").is_err());
    assert!(video_dimensions("[").is_err());
    assert!(read_streams("{\"streams\": []}").unwrap().is_empty());
}

#[test]
fn packet_reports_are_read() {
    let report = "{\"packets\": [
        {\"pts_time\": \"0.000\", \"duration_time\": \"0.012\"},
        {\"duration_time\": \"0.012\"},
        {\"pts_time\": \"0.512\"}
    ]}";
    let packets = read_packets(report).unwrap();
    assert_eq!(packets.len(), 3);
    assert_eq!(packets[0].duration_time.as_deref(), Some("0.012"));
    assert_eq!(packets[1].pts_time, None);
    assert_eq!(max_audio_discontinuity(&packets), millis(500));
}

#[test]
fn frame_sizes_are_read() {
    let sized = "{\"streams\": [{\"width\": 1920, \"height\": 1080}]}";
    assert_eq!(video_dimensions(sized), Ok(Some((1920, 1080))));
    assert_eq!(video_dimensions("{\"streams\": []}"), Ok(None));
    assert_eq!(video_dimensions("{\"streams\": [{\"width\": 1920}]}"), Ok(None));
    let huge = "{\"streams\": [{\"width\": 4294967296, \"height\": 1080}]}";
    assert_eq!(video_dimensions(huge), Ok(None));
}

#[test]
fn reports_are_asked_for_as_json() {
    let head = ["-v", "error", "-print_format", "json"];
    assert_eq!(stream_args("a b.mkv")[..4], head);
    assert_eq!(stream_args("a b.mkv")[4..], ["-show_streams", "a b.mkv"]);
    assert_eq!(
        packet_args("m")[4..],
        ["-select_streams", "a:0", "-show_entries", "packet=pts_time,duration_time", "m"]
    );
    assert_eq!(
        dimension_args("m")[4..],
        ["-select_streams", "v:0", "-show_entries", "stream=width,height", "m"]
    );
    assert_eq!(report_failed("m", "no such file"), "ffprobe failed on m: no such file");
}

#[test]
fn repeated_offsets_keep_the_last() {
    let p = probe(&vec![
        stream("video", "1", Some("1"), None),
        stream("audio", "0", Some("-0.25"), None),
        stream("video", "1", Some("nan"), None),
        stream("video", "10", Some("inf"), None),
    ]);
    assert_eq!(
        p.start_offsets_json(),
        "{\"audio:0\":-0.25,\"video:1\":null,\"video:10\":null}"
    );
    assert_eq!(probe(&vec![]).start_offsets_json(), "{}");
}

#[test]
fn rates_are_compared_exactly() {
    assert_eq!(nearest_standard_fps("300000000000/10000000000"), Some((30, 1)));
    assert_eq!(nearest_standard_fps("0.0000000003/0.00000000001"), Some((30, 1)));
    assert_eq!(nearest_standard_fps("0.00000000000000000001/1"), Some((24000, 1001)));
    assert_eq!(nearest_standard_fps("3e400/1e399"), Some((30, 1)));
    assert_eq!(nearest_standard_fps("48e-30/.1e-29"), Some((48, 1)));
    assert_eq!(nearest_standard_fps("1e999999999/1"), Some((60, 1)));
    assert_eq!(nearest_standard_fps("1/1e999999999"), Some((24000, 1001)));
    // Just below, at and above the middle of 24 and 25.
    assert_eq!(nearest_standard_fps("24.4999999999999999999999999999/1"), Some((24, 1)));
    assert_eq!(nearest_standard_fps("24.5/1"), Some((24, 1)));
    assert_eq!(nearest_standard_fps("24.5000000000000000000000000001/1"), Some((25, 1)));
    assert_eq!(nearest_standard_fps("0/1"), None);
    assert_eq!(nearest_standard_fps("1/0.000"), None);
    assert_eq!(nearest_standard_fps("-30/1"), None);
    assert_eq!(nearest_standard_fps("inf/1"), Some((24000, 1001)));
    assert_eq!(nearest_standard_fps("1/1/1"), None);
}
