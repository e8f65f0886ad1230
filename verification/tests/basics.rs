use dipho::cli::parse_size;
use dipho::corpus::manifest::default_true;
use dipho::corpus::{ensure_schema_current, migrate, CorpusError, Migration, SCHEMA_VERSION};
use dipho::edl::render::{OutputProfile, VideoProps};
use dipho::hash::Hasher;
use dipho::fine::{parse_fine, Fine};
use dipho::number::{fmt_four, fmt_ratio, fmt_three, fmt_time, fmt_two, Fps, Rate, Real};
use dipho::parse::{parse_real, parse_unsigned};
use dipho::path::{extension, file_name, join_path, parent, replace_file_name};
use dipho::render::{
    check_clips, clip_progress, command_failed, intermediates_dir, parse_fps, preflight_free_space,
    relink, render_failed, rendered, resolve_profile, Relink,
};
use dipho::span::{Channel, SourceId, Span};

#[test]
fn duration_is_end_minus_start() {
    let span = Span {
        source: SourceId(1),
        t_start: Real::Nano(1_500_000_000),
        t_end: Real::Nano(4_000_000_000),
        channel: Channel::Both,
    };
    assert_eq!(span.duration(), Real::Nano(2_500_000_000));
}

#[test]
fn durations_of_non_finite_spans_are_non_finite() {
    let d = |t_start: Real, t_end: Real| {
        Span { source: SourceId(1), t_start, t_end, channel: Channel::Audio }.duration()
    };
    assert_eq!(d(Real::NaN, Real::Nano(1)), Real::NaN);
    assert_eq!(d(Real::Nano(1), Real::Infinity), Real::Infinity);
    assert_eq!(d(Real::Infinity, Real::Infinity), Real::NaN);
    assert_eq!(d(Real::Infinity, Real::Nano(1)), Real::NegInfinity);
}

// The corpus's schema.

/// The version that a corpus of the given one has once it was migrated.
fn migrated(found: i64) -> Result<i64, CorpusError> {
    Ok(match migrate(found)? {
        Some(Migration { target, .. }) => target,
        None => found,
    })
}

#[test]
fn migrate_reaches_current_version_and_is_idempotent() {
    let version = migrated(0).unwrap();
    assert_eq!(version, SCHEMA_VERSION);
    assert_eq!(migrate(version).unwrap(), None);
    assert_eq!(migrated(version).unwrap(), SCHEMA_VERSION);
    assert!(migrate(0).unwrap().unwrap().create_tables);
}

#[test]
fn migrate_rejects_newer_schema() {
    assert!(matches!(migrate(999), Err(CorpusError::SchemaTooNew { found: 999, .. })));
    let message = migrate(999).unwrap_err().message();
    assert_eq!(
        message,
        "corpus schema version 999 is newer than this build supports (1)"
    );
}

#[test]
fn a_corpus_of_another_version_is_not_read() {
    assert!(ensure_schema_current(SCHEMA_VERSION).is_ok());
    assert!(matches!(ensure_schema_current(0), Err(CorpusError::SchemaStale { found: 0, .. })));
    assert!(matches!(ensure_schema_current(2), Err(CorpusError::SchemaTooNew { found: 2, .. })));
    assert!(default_true());
}

#[test]
fn corpus_errors_read_as_sentences() {
    assert_eq!(
        CorpusError::UnknownManifestVersion(99).message(),
        "unsupported manifest schema_version 99"
    );
    assert_eq!(
        CorpusError::UnknownPhoneLabel { label: "Q\"Q".to_string() }.message(),
        "unknown phone label \"Q\\\"Q\""
    );
    assert_eq!(
        CorpusError::IndexOutOfRange { what: "word", index: 7 }.message(),
        "word index 7 is out of range"
    );
    let interval = CorpusError::InvalidInterval {
        what: "turn",
        t_start: Real::Nano(250_000_000),
        t_end: Real::NaN,
    };
    assert_eq!(interval.message(), "turn has invalid interval [0.25, NaN]");
    assert_eq!(
        CorpusError::Contract("x".to_string()).message(),
        "manifest contract violation: x"
    );
}

// Numbers.

#[test]
fn decimal_numbers_parse_to_nanoseconds() {
    let nano = |s: &str| parse_real(s);
    assert_eq!(nano("1.5"), Some(Real::Nano(1_500_000_000)));
    assert_eq!(nano("-0.25"), Some(Real::Nano(-250_000_000)));
    assert_eq!(nano("+2e-3"), Some(Real::Nano(2_000_000)));
    assert_eq!(nano(".5"), Some(Real::Nano(500_000_000)));
    assert_eq!(nano("3."), Some(Real::Nano(3_000_000_000)));
    assert_eq!(nano("inf"), Some(Real::Infinity));
    assert_eq!(nano("-Infinity"), Some(Real::NegInfinity));
    assert_eq!(nano("NaN"), Some(Real::NaN));
    assert_eq!(nano(""), None);
    assert_eq!(nano("."), None);
    assert_eq!(nano("1e"), None);
    assert_eq!(nano("N/A"), None);
}

#[test]
fn unsigned_numbers_parse_up_to_their_bound() {
    let chars = |s: &str| s.chars().collect::<Vec<char>>();
    assert_eq!(parse_unsigned(&chars("0042"), 100), Some(42));
    assert_eq!(parse_unsigned(&chars("+42"), 100), Some(42));
    assert_eq!(parse_unsigned(&chars("101"), 100), None);
    assert_eq!(parse_unsigned(&chars(""), 100), None);
    assert_eq!(parse_unsigned(&chars("-1"), 100), None);
    assert_eq!(parse_unsigned(&chars("4a"), 100), None);
}

#[test]
fn numbers_print_with_a_fixed_number_of_places() {
    assert_eq!(fmt_two(1_005_000_000), "1.00");
    assert_eq!(fmt_two(-1_500_000_000), "-1.50");
    assert_eq!(fmt_three(925_000_000), "0.925");
    assert_eq!(fmt_four(1_500_000_000), "1.5000");
    assert_eq!(fmt_time(1_483_333_333), "1.483333");
    assert_eq!(fmt_time(-1_483_333_333), "-1.483333");
    assert_eq!(fmt_ratio(30_000, 1_001), "29.970030");
    assert_eq!(Rate::new(30, 1).unwrap().text(), "30.000000");
    assert_eq!(Rate::new(30, 1).unwrap().terms(), (30, 1));
    assert_eq!(Rate::new(0, 1), None);
    assert_eq!(Rate::new(1, 0), None);
    assert_eq!(Real::Nano(-500_000_000).text(), "-0.5");
    assert_eq!(Real::Infinity.text(), "inf");
}

// Paths.

#[test]
fn paths_split_and_join() {
    assert_eq!(join_path("/a", "b"), "/a/b");
    assert_eq!(join_path("/a/", "b"), "/a/b");
    assert_eq!(join_path("", "b"), "b");
    assert_eq!(file_name("/a/b.tar.gz").as_deref(), Some("b.tar.gz"));
    assert_eq!(file_name("/a/b/").as_deref(), Some("b"));
    assert_eq!(file_name("/"), None);
    assert_eq!(file_name("/a/.."), None);
    assert_eq!(parent("/a/b").as_deref(), Some("/a"));
    assert_eq!(parent("b").as_deref(), Some(""));
    assert_eq!(parent("/"), None);
    assert_eq!(replace_file_name("/a/b.json", "c"), "/a/c");
    assert_eq!(replace_file_name("b.json", "c"), "c");
    assert_eq!(extension("/a/b.tar.gz").as_deref(), Some("gz"));
    assert_eq!(extension("/a/.hidden"), None);
    assert_eq!(extension("/a/b"), None);
}

// Hashes.

#[test]
fn digests_are_sha256_in_hex() {
    let mut h = Hasher::new();
    h.update(b"a");
    h.update(b"bc");
    assert_eq!(
        h.finish(),
        "ba7816bf8f01cfea414140de5dae2223b00361a396177a9cb410ff61f20015ad"
    );
    assert_eq!(
        Hasher::new().finish(),
        "e3b0c44298fc1c149afbf4c8996fb92427ae41e4649b934ca495991b7852b855"
    );
}

// Rendering.

fn profile() -> OutputProfile {
    OutputProfile { width: 1920, height: 1080, fps: Fps::Rate(Rate::new(30, 1).unwrap()) }
}

#[test]
fn frame_sizes_parse() {
    assert_eq!(parse_size("1920x1080"), Ok((1920, 1080)));
    assert_eq!(parse_size("640X360"), Ok((640, 360)));
    assert!(parse_size("1920").is_err());
    assert!(parse_size("0x1080").is_err());
    assert!(parse_size("1920x").is_err());
    assert!(parse_size("1x2x3").is_err());
}

#[test]
fn frame_rates_parse() {
    assert_eq!(parse_fps("30").unwrap().text(), "30.000000");
    assert_eq!(parse_fps("29.97").unwrap().text(), "29.970000");
    assert_eq!(parse_fps("4294967295").unwrap().text(), "4294967295.000000");
    assert!(parse_fps("4294967296").is_err());
    assert_eq!(parse_fps("fast").unwrap_err(), "\"fast\" is not a frame rate");
}

#[test]
fn any_number_is_a_frame_rate() {
    assert_eq!(parse_fps("0"), Ok(Fps::Zero { negative: false }));
    assert_eq!(parse_fps("-0.0"), Ok(Fps::Zero { negative: true }));
    assert_eq!(parse_fps("1e-12"), Ok(Fps::Zero { negative: false }));
    assert_eq!(parse_fps("inf"), Ok(Fps::Infinity));
    assert_eq!(parse_fps("-inf"), Ok(Fps::NegInfinity));
    assert_eq!(parse_fps("nan"), Ok(Fps::NaN));
    let texts: Vec<String> =
        ["-1", "-0", "0", "nan", "inf", "-inf"].iter().map(|s| parse_fps(s).unwrap().text()).collect();
    assert_eq!(texts, ["-1.000000", "-0.000000", "0.000000", "NaN", "inf", "-inf"]);
}

#[test]
fn a_render_at_an_odd_rate_needs_what_its_rate_says() {
    let at = |fps: &str| OutputProfile { fps: parse_fps(fps).unwrap(), ..profile() };
    // Sound alone.
    let sound: u64 = 48_000 * 2 * 24 * 5 / 32;
    assert_eq!(preflight_free_space(&at("0"), 1_000_000_000, sound, "/w"), Ok(()));
    assert!(preflight_free_space(&at("0"), 1_000_000_000, sound - 1, "/w").is_err());
    assert_eq!(preflight_free_space(&at("-30"), 1_000_000_000, 0, "/w"), Ok(()));
    assert_eq!(preflight_free_space(&at("nan"), 1_000_000_000, 0, "/w"), Ok(()));
    assert_eq!(preflight_free_space(&at("-inf"), 1_000_000_000, 0, "/w"), Ok(()));
    assert!(preflight_free_space(&at("inf"), 1, u64::MAX - 1, "/w").is_err());
    assert_eq!(preflight_free_space(&at("inf"), 0, 0, "/w"), Ok(()));
    assert!(rendered("m", 0, &at("-0.5")).contains(" @ -0.500 fps"));
    assert!(rendered("m", 0, &at("-0")).contains(" @ -0.000 fps"));
    assert!(rendered("m", 0, &at("inf")).contains(" @ inf fps"));
    assert!(rendered("m", 0, &at("29.97")).contains(" @ 29.970 fps"));
}

#[test]
fn fine_quantities_keep_eighteen_decimals() {
    let hop = parse_fine("0.010666666666666666").unwrap();
    assert_eq!(hop, Fine::Atto(10_666_666_666_666_666));
    assert_eq!(hop.text(), "0.010666666666666666");
    assert_eq!(parse_fine("-2").unwrap().text(), "-2");
    assert_eq!(parse_fine("nan"), Some(Fine::NaN));
    assert_eq!(parse_fine("-inf").unwrap().text(), "-inf");
    assert_eq!(parse_fine("later"), None);
    assert_eq!(parse_fine("1e300"), parse_fine("1e30"));
    let json = |s: &str| {
        let mut out = String::new();
        parse_fine(s).unwrap().push_json(&mut out);
        out
    };
    assert_eq!(json("0"), "0.0");
    assert_eq!(json("12"), "12.0");
    assert_eq!(json("-0.25"), "-0.25");
    assert_eq!(json("0.00001"), "0.00001");
    assert_eq!(json("0.000001"), "1e-6");
    assert_eq!(json("-0.0000012"), "-1.2e-6");
    assert_eq!(json("2.5e16"), "2.5e+16");
    assert_eq!(json("inf"), "null");
    assert_eq!(parse_fine("0.0100000004").unwrap().millis(), "10.0");
    assert_eq!(parse_fine("-0.01125").unwrap().millis(), "-11.2");
    assert_eq!(parse_fine("1.5").unwrap().to_real(), Real::Nano(1_500_000_000));
    assert_eq!(parse_fine("-0.0000000005").unwrap().to_real(), Real::Nano(-1));
    assert_eq!(Fine::Atto(i128::MIN).minus(Fine::Atto(i128::MAX)), parse_fine("-1e30").unwrap());
}

#[test]
fn the_profile_is_the_largest_source_unless_asked_otherwise() {
    let videos = vec![
        VideoProps { width: 1280, height: 720, fps: Rate::new(60, 1).unwrap() },
        VideoProps { width: 1920, height: 1080, fps: Rate::new(30, 1).unwrap() },
    ];
    assert_eq!(resolve_profile(&videos, None, None), Ok(profile()));
    let asked = Fps::Rate(Rate::new(25, 1).unwrap());
    let chosen = resolve_profile(&videos, Some((640, 360)), Some(asked)).unwrap();
    assert_eq!((chosen.width, chosen.height), (640, 360));
    assert_eq!(chosen.fps, asked);
    let stopped = Some(Fps::Zero { negative: false });
    assert_eq!(resolve_profile(&videos, None, stopped).unwrap().fps, stopped.unwrap());
    assert!(resolve_profile(&Vec::new(), Some((640, 360)), None).is_err());
}

#[test]
fn intermediates_are_kept_per_edit_and_profile() {
    // The first sixteen digits of the digest of
    // `{}OutputProfile { width: 1920, height: 1080, fps: 30.0 }`.
    let rate = format!("{:?}", 30.0f64);
    let dir = intermediates_dir("/c/corpus.db", "{}", &profile(), &rate);
    assert_eq!(dir, "/c/render/dd951e99af022abf");
    assert_eq!(intermediates_dir("/c/corpus.db", "{}", &profile(), &rate), dir);
    assert_ne!(intermediates_dir("/c/corpus.db", "{ }", &profile(), &rate), dir);
    assert_ne!(intermediates_dir("/c/corpus.db", "{}", &profile(), "29.97"), dir);
    let other = OutputProfile { width: 640, ..profile() };
    assert_ne!(intermediates_dir("/c/corpus.db", "{}", &other, &rate), dir);
}

#[test]
fn a_render_needs_a_quarter_more_than_its_estimate() {
    // 1920 * 1080 * 3 * 30 + 48000 * 2 * 24 bits a second, in bytes, and a
    // quarter more.
    let second: u64 = (1920 * 1080 * 3 * 30 + 48_000 * 2 * 24) * 5 / 32;
    assert_eq!(preflight_free_space(&profile(), 1_000_000_000, second, "/w"), Ok(()));
    let e = preflight_free_space(&profile(), 1_000_000_000, second - 1, "/w").unwrap_err();
    assert!(e.contains("/w"), "{e}");
    assert_eq!(preflight_free_space(&profile(), 0, 0, "/w"), Ok(()));
}

#[test]
fn rebound_sources_are_written_back_only_when_asked() {
    assert_eq!(relink(0, true), Relink::Nothing);
    assert_eq!(relink(0, false), Relink::Nothing);
    assert_eq!(relink(1, true), Relink::Write);
    assert_eq!(relink(1, false), Relink::Hint);
}

#[test]
fn render_messages() {
    assert!(check_clips(0, "edit.json").unwrap_err().contains("edit.json"));
    assert_eq!(check_clips(1, "edit.json"), Ok(()));
    assert!(clip_progress(0, 3).contains("1/3"), "{}", clip_progress(0, 3));
    let argv = vec!["ffmpeg".to_string(), "-y".to_string()];
    let e = command_failed(&argv, "boom");
    assert!(e.contains("ffmpeg") && e.contains("boom"), "{e}");
    assert!(render_failed("/w").contains("/w"));
    let done = rendered("mix.mp4", 2_500_000_000, &profile());
    assert!(done.contains("mix.mp4") && done.contains("2.50"), "{done}");
}
