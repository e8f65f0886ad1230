use dipho::json::Json;
use dipho::mpv::{Incoming, MpvEvent, Requests};
use dipho::tui::db::{newest, DbHandle, SearchRequest};
use dipho::tui::player::{
    supersede, Arg, Audition, Player, PlayerCmd, PlayerHandle, PlayerUpdate, Preview, PreviewSeek,
    Step, EOF_ID, TIME_POS_ID,
};

fn ns(seconds: f64) -> i128 {
    (seconds * 1e9).round() as i128
}

fn audition(path: &str, start: f64, end: f64, looped: bool) -> PlayerCmd {
    PlayerCmd::Audition(Audition {
        master_path: path.to_string(),
        start: ns(start),
        end: ns(end),
        looped,
        label: "x".to_string(),
    })
}

fn preview(uri: &str, seek: PreviewSeek) -> PlayerCmd {
    PlayerCmd::Preview(Preview { uri: uri.to_string(), seek })
}

fn text(s: &str) -> Arg {
    Arg::Text(s.to_string())
}

fn set(name: &str, value: Arg) -> Vec<Arg> {
    vec![text("set_property"), text(name), value]
}

fn pause(on: bool) -> Vec<Arg> {
    set("pause", Arg::Flag(on))
}

fn load(target: &str) -> Vec<Arg> {
    vec![text("loadfile"), text(target), text("replace")]
}

fn seek(t: f64) -> Vec<Arg> {
    vec![text("seek"), Arg::Time(ns(t)), text("absolute+exact")]
}

fn ab_loop(which: &str, value: Arg) -> Vec<Arg> {
    set(which, value)
}

fn sent(steps: &[Step]) -> Vec<&Vec<Arg>> {
    steps
        .iter()
        .filter_map(|s| match s {
            Step::Send(args) => Some(args),
            _ => None,
        })
        .collect()
}

fn told(steps: &[Step]) -> Vec<&PlayerUpdate> {
    steps
        .iter()
        .filter_map(|s| match s {
            Step::Tell(update) => Some(update),
            _ => None,
        })
        .collect()
}

fn clocks(steps: &[Step]) -> usize {
    steps.iter().filter(|s| matches!(s, Step::StartClock)).count()
}

fn event(line: &str) -> MpvEvent {
    match Requests::new().receive(line) {
        Incoming::Event(e) => e,
        other => panic!("expected an event, got {other:?}"),
    }
}

fn time_pos(t: f64) -> MpvEvent {
    event(&format!(
        "{{\"event\":\"property-change\",\"id\":{TIME_POS_ID},\"name\":\"time-pos\",\"data\":{t}}}"
    ))
}

fn file_loaded() -> MpvEvent {
    event("{\"event\":\"file-loaded\"}")
}

fn restart() -> MpvEvent {
    event("{\"event\":\"playback-restart\"}")
}

fn handle(p: &mut Player, cmd: PlayerCmd) -> Vec<Step> {
    p.handle_cmd(cmd, &None, &None)
}

fn expect_startup() {
    let steps = Player::startup("mpv v0.41.0".to_string());
    assert_eq!(
        sent(&steps),
        vec![
            &vec![text("observe_property"), Arg::Number(TIME_POS_ID), text("time-pos")],
            &vec![text("observe_property"), Arg::Number(EOF_ID), text("eof-reached")],
        ]
    );
    assert!(matches!(told(&steps)[..], [PlayerUpdate::Ready { .. }]));
}

#[test]
fn phase_machine_loads_seeks_plays_and_autopauses() {
    expect_startup();
    let mut p = Player::new();

    // New file: pause, loadfile; the seek waits for file-loaded.
    let steps = handle(&mut p, audition("A", 1.0, 2.0, false));
    assert_eq!(sent(&steps), vec![&pause(true), &load("A")]);
    let steps = p.on_event(file_loaded(), 0).unwrap();
    assert_eq!(
        sent(&steps),
        vec![
            &ab_loop("ab-loop-a", text("no")),
            &ab_loop("ab-loop-b", text("no")),
            &seek(1.0),
            &pause(false),
        ]
    );
    assert_eq!(clocks(&steps), 1);
    assert!(matches!(told(&steps)[..], [PlayerUpdate::Playing { seek_ms: None, .. }]));

    // playback-restart completes the latency measurement.
    let steps = p.on_event(restart(), 12).unwrap();
    assert!(matches!(
        told(&steps)[..],
        [PlayerUpdate::Playing { seek_ms: Some(12), looped: false, .. }]
    ));

    // Past the window end: auto-pause, Done.
    let steps = p.on_event(time_pos(2.5), 0).unwrap();
    assert_eq!(sent(&steps), vec![&pause(true)]);
    assert!(matches!(told(&steps)[..], [PlayerUpdate::Done]));

    // Same file again, looped: the loop is set, a seek, no loadfile.
    let steps = handle(&mut p, audition("A", 0.5, 0.8, true));
    assert_eq!(
        sent(&steps),
        vec![
            &pause(true),
            &ab_loop("ab-loop-a", Arg::Time(ns(0.5))),
            &ab_loop("ab-loop-b", Arg::Time(ns(0.8))),
            &seek(0.5),
            &pause(false),
        ]
    );
    assert!(matches!(told(&steps)[..], [PlayerUpdate::Playing { looped: true, .. }]));

    // A looped play never auto-pauses on time-pos.
    assert!(p.on_event(time_pos(5.0), 0).unwrap().is_empty());

    // Stop pauses and clears the loop.
    let steps = handle(&mut p, PlayerCmd::Stop);
    assert_eq!(
        sent(&steps),
        vec![
            &pause(true),
            &ab_loop("ab-loop-a", text("no")),
            &ab_loop("ab-loop-b", text("no")),
        ]
    );
    assert!(matches!(told(&steps)[..], [PlayerUpdate::Stopped]));
}

#[test]
fn preview_reload_preserves_position_and_pause_state() {
    expect_startup();
    let mut p = Player::new();

    // The first preview load plays from an absolute position.
    let steps = handle(&mut p, preview("edl://v1", PreviewSeek::From(0)));
    assert_eq!(sent(&steps), vec![&pause(true), &load("edl://v1")]);
    let steps = p.on_event(file_loaded(), 0).unwrap();
    assert_eq!(
        sent(&steps),
        vec![
            &ab_loop("ab-loop-a", text("no")),
            &ab_loop("ab-loop-b", text("no")),
            &seek(0.0),
            &pause(false),
        ]
    );
    assert!(matches!(told(&steps)[..], [PlayerUpdate::Playing { looped: false, .. }]));

    // The edit changed under the playhead: the reload reads the position (3.25
    // here, paused) and resumes there, clamped to the new, shorter duration,
    // still paused.
    let cmd = preview("edl://v2", PreviewSeek::Resume { max: ns(2.0) });
    assert!(cmd.needs_readback());
    let steps = p.handle_cmd(
        cmd,
        &Some(Json::Number("3.25".to_string())),
        &Some(Json::Bool(true)),
    );
    assert_eq!(sent(&steps), vec![&pause(true), &load("edl://v2")]);
    let steps = p.on_event(file_loaded(), 0).unwrap();
    assert_eq!(
        sent(&steps),
        vec![
            &ab_loop("ab-loop-a", text("no")),
            &ab_loop("ab-loop-b", text("no")),
            &seek(2.0),
            &pause(true),
        ]
    );
    assert!(matches!(told(&steps)[..], [PlayerUpdate::Playing { .. }]));

    // A neighborhood-replay window on the same URI skips loadfile and
    // auto-pauses past its end.
    let window = PreviewSeek::Window { start: ns(0.5), end: ns(1.5) };
    let steps = handle(&mut p, preview("edl://v2", window));
    assert_eq!(
        sent(&steps),
        vec![
            &pause(true),
            &ab_loop("ab-loop-a", text("no")),
            &ab_loop("ab-loop-b", text("no")),
            &seek(0.5),
            &pause(false),
        ]
    );
    assert!(matches!(told(&steps)[..], [PlayerUpdate::Playing { .. }]));
    // The seek completes; only then does the window end auto-pause.
    let steps = p.on_event(restart(), 3).unwrap();
    assert!(matches!(told(&steps)[..], [PlayerUpdate::Playing { seek_ms: Some(_), .. }]));
    let steps = p.on_event(time_pos(1.6), 0).unwrap();
    assert_eq!(sent(&steps), vec![&pause(true)]);
    assert!(matches!(told(&steps)[..], [PlayerUpdate::Done]));

    // TogglePause cycles when something is loaded.
    let steps = handle(&mut p, PlayerCmd::TogglePause);
    assert_eq!(sent(&steps), vec![&vec![text("cycle"), text("pause")]]);
}

#[test]
fn a_window_ends_only_once_the_seek_is_over() {
    let mut p = Player::new();
    handle(&mut p, audition("A", 1.0, 2.0, false));
    p.on_event(file_loaded(), 0).unwrap();
    assert!(p.on_event(time_pos(2.5), 0).unwrap().is_empty());
    p.on_event(restart(), 1).unwrap();
    assert!(p.on_event(time_pos(1.99), 0).unwrap().is_empty());
    // Five milliseconds before the end count as the end.
    assert!(!p.on_event(time_pos(1.996), 0).unwrap().is_empty());
}

#[test]
fn nothing_is_toggled_before_a_load_and_a_lost_mpv_is_an_error() {
    let mut p = Player::new();
    assert!(handle(&mut p, PlayerCmd::TogglePause).is_empty());
    assert!(p.on_event(MpvEvent::Disconnected, 0).is_err());
}

#[test]
fn an_end_of_file_finishes_an_open_ended_preview() {
    let mut p = Player::new();
    handle(&mut p, preview("edl://v1", PreviewSeek::From(0)));
    p.on_event(file_loaded(), 0).unwrap();
    p.on_event(restart(), 1).unwrap();
    let eof = format!("{{\"event\":\"property-change\",\"id\":{EOF_ID},\"data\":true}}");
    let steps = p.on_event(event(&eof), 0).unwrap();
    assert!(matches!(told(&steps)[..], [PlayerUpdate::Done]));
}

#[test]
fn only_playback_is_superseded() {
    let a = || audition("A", 0.0, 1.0, false);
    let (run, held) = supersede(a(), Some(audition("B", 0.0, 1.0, false)));
    assert!(run.is_none());
    assert!(matches!(held, Some(PlayerCmd::Audition(b)) if b.master_path == "B"));
    let (run, held) = supersede(a(), Some(PlayerCmd::Stop));
    assert!(matches!(run, Some(PlayerCmd::Audition(_))));
    assert!(matches!(held, Some(PlayerCmd::Stop)));
    let (run, held) = supersede(PlayerCmd::TogglePause, Some(a()));
    assert!(matches!(run, Some(PlayerCmd::TogglePause)));
    assert!(matches!(held, Some(PlayerCmd::Audition(_))));
    let (run, held) = supersede(a(), None);
    assert!(matches!(run, Some(PlayerCmd::Audition(_))));
    assert!(held.is_none());
}

#[test]
fn handles_queue_in_order_and_drain() {
    let mut h = PlayerHandle::new();
    h.toggle_pause();
    h.stop();
    assert!(matches!(h.take()[..], [PlayerCmd::TogglePause, PlayerCmd::Stop]));
    assert!(h.take().is_empty());

    let mut db = DbHandle::new();
    db.request(1, "h".to_string());
    db.request(2, "hi".to_string());
    let mut asked = db.take();
    assert_eq!(asked.len(), 2);
    assert!(db.take().is_empty());
    let first = asked.remove(0);
    assert_eq!(newest(first, asked).query, "hi");
    let only = SearchRequest { generation: 7, query: "x".to_string() };
    assert_eq!(newest(only, Vec::new()).generation, 7);
}
