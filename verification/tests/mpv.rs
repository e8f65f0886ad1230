use dipho::json::{as_integer, as_quantity, as_text, as_unsigned, is_true, Json};
use dipho::mpv::{
    check_version, command_text, give_up, parse_version, rejected, request_line, slave_args,
    slave_dir, socket_path, Incoming, MpvEvent, Requests, MAX_SOCKET_PATH, VERSION_FLOOR,
};
use dipho::number::Real;
use dipho::tui::player::Arg;

#[test]
fn version_strings_parse() {
    assert_eq!(parse_version("mpv 0.40.0-dirty"), Some((0, 40)));
    assert_eq!(parse_version("mpv v0.41.0"), Some((0, 41)));
    assert_eq!(parse_version("mpv 0.38.0"), Some((0, 38)));
    assert_eq!(parse_version("mpv git-2026"), None);
    assert_eq!(parse_version(""), None);
}

fn reply(id: u64, data: &str) -> String {
    format!("{{\"request_id\":{id},\"error\":\"success\",\"data\":\"{data}\"}}")
}

#[test]
fn replies_correlate_by_request_id_not_arrival_order() {
    let mut requests = Requests::new();
    let a = requests.begin();
    let b = requests.begin();
    assert_ne!(a, b);
    // The reply to the second command comes first.
    match requests.receive(&reply(b, "second")) {
        Incoming::Reply { id, result } => {
            assert_eq!(id, b);
            assert_eq!(result, Ok(Json::Text("second".to_string())));
        }
        other => panic!("expected a reply, got {other:?}"),
    }
    match requests.receive(&reply(a, "first")) {
        Incoming::Reply { id, result } => {
            assert_eq!(id, a);
            assert_eq!(result, Ok(Json::Text("first".to_string())));
        }
        other => panic!("expected a reply, got {other:?}"),
    }
    // Each is delivered once.
    assert!(matches!(requests.receive(&reply(a, "again")), Incoming::Nothing));
}

#[test]
fn error_replies_surface_the_mpv_error_string() {
    let mut requests = Requests::new();
    let id = requests.begin();
    let line = format!("{{\"request_id\":{id},\"error\":\"invalid parameter\"}}");
    match requests.receive(&line) {
        Incoming::Reply { result: Err(error), .. } => {
            let message = rejected("[\"seek\",\"nowhere\"]", &error);
            assert!(message.contains("invalid parameter"), "{message}");
        }
        other => panic!("expected an error, got {other:?}"),
    }
}

#[test]
fn events_are_forwarded_and_disconnect_is_signalled() {
    let mut requests = Requests::new();
    assert!(matches!(
        requests.receive("{\"event\":\"file-loaded\"}"),
        Incoming::Event(MpvEvent::FileLoaded)
    ));
    assert!(matches!(
        requests.receive("{\"event\":\"playback-restart\"}"),
        Incoming::Event(MpvEvent::PlaybackRestart)
    ));
    let change = "{\"event\":\"property-change\",\"id\":7,\"name\":\"time-pos\",\"data\":1.5}";
    match requests.receive(change) {
        Incoming::Event(MpvEvent::PropertyChange { id: 7, data }) => {
            assert_eq!(data, Json::Number("1.5".to_string()));
            assert_eq!(as_quantity(&Some(data)), Some(Real::Nano(1_500_000_000)));
        }
        other => panic!("expected property-change, got {other:?}"),
    }
    // Not forwarded.
    assert!(matches!(requests.receive("{\"event\":\"idle\"}"), Incoming::Nothing));
    assert!(matches!(requests.receive("not json"), Incoming::Nothing));
}

#[test]
fn abandoned_and_closed_requests_get_no_reply() {
    let mut requests = Requests::new();
    let a = requests.begin();
    requests.abandon(a);
    assert!(matches!(requests.receive(&reply(a, "late")), Incoming::Nothing));
    let b = requests.begin();
    requests.close();
    assert!(matches!(requests.receive(&reply(b, "late")), Incoming::Nothing));
}

#[test]
fn versions_below_the_floor_are_refused() {
    assert_eq!(VERSION_FLOOR, (0, 38));
    let check = |s: &str| check_version(Json::Text(s.to_string()));
    assert_eq!(check("mpv v0.38.0"), Ok("mpv v0.38.0".to_string()));
    assert_eq!(check("mpv 1.0.0"), Ok("mpv 1.0.0".to_string()));
    assert!(check("mpv 0.37.0").unwrap_err().contains("0.37"));
    // A version that cannot be read is taken as it is.
    assert_eq!(check("mpv git-2026"), Ok("mpv git-2026".to_string()));
    assert_eq!(check_version(Json::Null), Ok("unknown".to_string()));
}

#[test]
fn a_long_temporary_directory_is_not_used_for_the_socket() {
    let short = slave_dir("/tmp", 42, 3);
    assert!(short.starts_with("/tmp/"), "{short}");
    assert!(short.contains("42") && short.contains('3'));
    let long = format!("/{}", "x".repeat(MAX_SOCKET_PATH));
    let dir = slave_dir(&long, 42, 3);
    assert!(dir.starts_with("/tmp/"), "{dir}");
    assert!(socket_path(&short).starts_with(&short));
    let argv = slave_args("/s", &vec!["--vo=null".to_string()]);
    assert!(argv.iter().any(|a| a == "--input-ipc-server=/s"), "{argv:?}");
    assert_eq!(argv.last().map(String::as_str), Some("--vo=null"));
}

#[test]
fn a_dead_or_late_slave_is_given_up() {
    assert_eq!(give_up(&None, false, "refused"), None);
    assert!(give_up(&None, true, "refused").unwrap().contains("refused"));
    assert!(give_up(&Some("exit status: 1".to_string()), false, "refused")
        .unwrap()
        .contains("exit status: 1"));
}

#[test]
fn json_values_read_as_what_they_are() {
    let number = |s: &str| Some(Json::Number(s.to_string()));
    assert_eq!(as_unsigned(&number("7")), Some(7));
    assert_eq!(as_unsigned(&number("-7")), None);
    assert_eq!(as_unsigned(&number("7.0")), None);
    assert_eq!(as_integer(&number("-7")), Some(-7));
    assert_eq!(as_integer(&number("9223372036854775808")), None);
    assert_eq!(as_quantity(&number("0.25")), Some(Real::Nano(250_000_000)));
    assert_eq!(as_quantity(&Some(Json::Null)), None);
    assert_eq!(as_text(&Some(Json::Text("a".to_string()))), Some("a"));
    assert_eq!(as_text(&None), None);
    assert!(is_true(&Some(Json::Bool(true))));
    assert!(!is_true(&Some(Json::Bool(false))));
    assert!(!is_true(&None));
}

#[test]
fn requests_are_single_lines_of_json() {
    let seek = vec![
        Arg::Text("seek".to_string()),
        Arg::Time(1_500_000_000),
        Arg::Text("absolute+exact".to_string()),
    ];
    assert_eq!(
        request_line(&seek, 7),
        "{\"command\":[\"seek\",1.5,\"absolute+exact\"],\"request_id\":7}"
    );
    assert_eq!(command_text(&seek), "[\"seek\",1.5,\"absolute+exact\"]");
    assert_eq!(command_text(&vec![]), "[]");
    let others = vec![
        Arg::Flag(true),
        Arg::Flag(false),
        Arg::Number(12),
        Arg::Time(0),
        Arg::Time(-2_000_000_001),
        Arg::Text("a\n\"b\\\u{1}é".to_string()),
    ];
    assert_eq!(
        command_text(&others),
        "[true,false,12,0.0,-2.000000001,\"a\\n\\\"b\\\\\\u0001é\"]"
    );
    assert!(!request_line(&others, 1).contains('\n'));
}
