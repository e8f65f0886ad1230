use dipho::corpus::search::{SearchHit, WordSpan};
use dipho::edl::rebind::CorpusSource;
use dipho::edl::{Clip, ProvenanceRef, Transform};
use dipho::number::{Rate, Real};
use dipho::span::{Channel, SourceId, Span};
use dipho::tui::app::{place_input, App, InputPane, Pane, Screen};
use dipho::tui::db::{DbHandle, SearchRequest};
use dipho::tui::edit::EditSession;
use dipho::tui::event::{Event, Key, KeyCode, TermEvent, CONTROL};
use dipho::tui::player::{PlayerCmd, PlayerHandle, PlayerUpdate, PreviewSeek};
use dipho::tui::ui::{align_left, align_right, badges, clip_rows, edit_title, Look};

fn ns(seconds: f64) -> i64 {
    (seconds * 1e9).round() as i64
}

fn wide(seconds: f64) -> i128 {
    ns(seconds) as i128
}

fn at(seconds: f64) -> Real {
    Real::Nano(ns(seconds))
}

fn key(code: KeyCode) -> Event {
    Event::Term(TermEvent::Key { key: Key { code, modifiers: 0 }, released: false })
}

fn ctrl(c: char) -> Event {
    let key = Key { code: KeyCode::Char(c), modifiers: CONTROL };
    Event::Term(TermEvent::Key { key, released: false })
}

fn test_source(id: i64) -> CorpusSource {
    CorpusSource {
        id: SourceId(id),
        origin: "test".to_string(),
        origin_id: format!("yt:{id}"),
        master_path: format!("/masters/test{id}.mkv"),
        master_hash: format!("hash-{id}"),
        duration: ns(100.0),
        fps: Rate::new(30, 1),
    }
}

fn hit(text: &str) -> SearchHit {
    SearchHit {
        utterance_id: 1,
        source: test_source(1),
        t_start: 0,
        t_end: ns(1.0),
        text: text.to_string(),
        speaker: None,
        multi_speaker: false,
        confidence: None,
        words: Vec::new(),
        matches: Vec::new(),
    }
}

/// A hit whose first match is "twenty five" at 0.2–0.9 s, inside an utterance
/// spanning 0.0–2.0 s.
fn matched_hit() -> SearchHit {
    let mut h = hit("I said 25 ok");
    h.t_end = ns(2.0);
    h.words = [("i", 0.0), ("said", 0.1), ("twenty", 0.2), ("five", 0.6), ("ok", 0.9)]
        .iter()
        .map(|&(w, t)| WordSpan {
            text: w.to_string(),
            t_start: ns(t),
            t_end: ns(t + 0.3),
            confidence: None,
        })
        .collect();
    h.matches.push(2..4);
    h
}

fn app_with_db() -> App {
    App::new(
        "test.db".to_string(),
        Ok(DbHandle::new()),
        PlayerHandle::new(),
        EditSession::empty("/edits/edit.json".to_string()),
        Vec::new(),
    )
}

fn asked(app: &mut App) -> Vec<SearchRequest> {
    app.db.as_mut().unwrap().take()
}

/// The next command that went to the player.
fn next_cmd(app: &mut App) -> PlayerCmd {
    app.player.queue.remove(0)
}

fn search_done(generation: u64, hits: Vec<SearchHit>) -> Event {
    Event::SearchDone { generation, result: Ok(hits) }
}

#[test]
fn typing_issues_a_search_per_revision() {
    let mut app = app_with_db();
    app.update(key(KeyCode::Char('h')));
    app.update(key(KeyCode::Char('i')));
    assert_eq!(app.generation, 2);
    assert!(app.searching);
    let reqs = asked(&mut app);
    assert_eq!(reqs.len(), 2);
    assert_eq!(reqs[1].generation, 2);
    assert_eq!(reqs[1].query, "hi");
}

#[test]
fn stale_results_are_dropped_and_current_ones_applied() {
    let mut app = app_with_db();
    app.update(key(KeyCode::Char('a')));
    app.update(key(KeyCode::Char('b')));
    app.update(search_done(1, vec![hit("stale")]));
    assert!(app.hits.is_empty());
    assert!(app.searching);
    app.update(search_done(2, vec![hit("fresh"), hit("fresh2")]));
    assert!(!app.searching);
    assert_eq!(app.hits.len(), 2);
    assert_eq!(app.selected, Some(0));
}

#[test]
fn clearing_the_query_clears_hits_without_a_request() {
    let mut app = app_with_db();
    app.update(key(KeyCode::Char('a')));
    app.update(search_done(1, vec![hit("one")]));
    app.update(key(KeyCode::Backspace));
    assert!(app.hits.is_empty());
    assert!(!app.searching);
    assert_eq!(app.selected, None);
    // Only the first "a" request went to the corpus.
    assert_eq!(asked(&mut app).len(), 1);
    // A late result for the cleared query is stale by its revision.
    app.update(search_done(1, vec![hit("late")]));
    assert!(app.hits.is_empty());
}

#[test]
fn selection_moves_within_bounds_and_q_is_just_text() {
    let mut app = app_with_db();
    app.update(key(KeyCode::Char('q')));
    assert!(!app.quit);
    assert_eq!(app.input.value(), "q");
    app.update(search_done(1, vec![hit("a"), hit("b"), hit("c")]));
    app.update(key(KeyCode::Down));
    app.update(key(KeyCode::Down));
    app.update(key(KeyCode::Down));
    assert_eq!(app.selected, Some(2));
    app.update(key(KeyCode::PageUp));
    assert_eq!(app.selected, Some(0));
    app.update(key(KeyCode::Esc));
    assert!(app.quit);
}

#[test]
fn search_errors_surface_in_the_note() {
    let mut app = app_with_db();
    app.update(key(KeyCode::Char('a')));
    app.update(Event::SearchDone {
        generation: 1,
        result: Err("database disappeared".to_string()),
    });
    assert_eq!(app.note.as_deref(), Some("database disappeared"));
}

fn select_matched_hit(app: &mut App) {
    app.update(key(KeyCode::Char('x')));
    app.update(search_done(1, vec![matched_hit()]));
}

#[test]
fn enter_loops_the_exact_match_span() {
    let mut app = app_with_db();
    select_matched_hit(&mut app);
    app.update(key(KeyCode::Enter));
    match next_cmd(&mut app) {
        PlayerCmd::Audition(a) => {
            assert_eq!(a.master_path, "/masters/test1.mkv");
            assert_eq!((a.start, a.end), (wide(0.2), wide(0.9)));
            assert!(a.looped);
            assert_eq!(a.label, "twenty five");
        }
        other => panic!("expected audition, got {other:?}"),
    }
}

#[test]
fn ctrl_t_plays_with_context_clamped_at_zero() {
    let mut app = app_with_db();
    select_matched_hit(&mut app);
    app.update(ctrl('t'));
    match next_cmd(&mut app) {
        PlayerCmd::Audition(a) => {
            // 0.2 - 0.5 clamps to 0; 0.9 + 0.5 = 1.4.
            assert_eq!((a.start, a.end), (0, wide(1.4)));
            assert!(!a.looped);
        }
        other => panic!("expected audition, got {other:?}"),
    }
}

#[test]
fn ctrl_u_plays_the_full_utterance_and_ctrl_p_stops() {
    let mut app = app_with_db();
    select_matched_hit(&mut app);
    app.update(ctrl('u'));
    match next_cmd(&mut app) {
        PlayerCmd::Audition(a) => {
            assert_eq!((a.start, a.end), (0, wide(2.0)));
            assert!(!a.looped);
            assert_eq!(a.label, "I said 25 ok");
        }
        other => panic!("expected audition, got {other:?}"),
    }
    app.update(ctrl('p'));
    assert!(matches!(next_cmd(&mut app), PlayerCmd::Stop));
}

#[test]
fn audition_without_hits_sends_nothing_and_updates_land_in_state() {
    let mut app = app_with_db();
    app.update(key(KeyCode::Enter));
    app.update(ctrl('t'));
    assert!(app.player.queue.is_empty());
    app.update(Event::Player(PlayerUpdate::Ready { version: "mpv v0.41.0".to_string() }));
    assert!(matches!(app.player_state, Some(PlayerUpdate::Ready { .. })));
}

#[test]
fn ctrl_a_appends_the_matched_span_as_a_clip() {
    let mut app = app_with_db();
    select_matched_hit(&mut app);
    app.update(ctrl('a'));
    let clips = app.edit.clips();
    assert_eq!(clips.len(), 1);
    let clip = &clips[0];
    assert_eq!(clip.span.source, SourceId(1));
    assert_eq!(clip.span.t_start, at(0.2));
    assert_eq!(clip.span.t_end, at(0.9));
    assert_eq!(clip.label.as_deref(), Some("twenty five"));
    assert_eq!(clip.provenance, Some(ProvenanceRef::Utterance(1)));
    assert_eq!(app.selected_clip, Some(0));
    // The manifest and source map entries came from the hit.
    assert_eq!(app.edit.edl.sources[&1].origin_id, "yt:1");
    assert!(app.edit.source_map.contains_key(&1));
    // The plan is recomputed and the recovery file is due.
    assert_eq!(app.plan.as_ref().unwrap().segments.len(), 1);
    assert!(app.autosave_due);
}

fn app_with_three_clips() -> App {
    let mut app = app_with_db();
    select_matched_hit(&mut app);
    app.update(ctrl('a'));
    app.update(ctrl('a'));
    app.update(ctrl('a'));
    // Drain anything the appends produced.
    app.player.take();
    app.update(key(KeyCode::Tab));
    assert!(matches!(app.focus, Pane::Edit));
    app
}

#[test]
fn edit_pane_keys_reorder_remove_and_trim() {
    let mut app = app_with_three_clips();
    // Three identical spans never elide: three segments.
    assert_eq!(app.plan.as_ref().unwrap().segments.len(), 3);

    // Trim the selected (last) clip's end edge out by 25 ms.
    app.update(key(KeyCode::Char('}')));
    assert_eq!(app.edit.clips()[2].span.t_end, at(0.925));
    // A trim triggers a neighborhood replay window around the clip.
    match next_cmd(&mut app) {
        PlayerCmd::Preview(p) => match p.seek {
            PreviewSeek::Window { start, end } => {
                // Clip 2 spans output [1.4, 2.125]; half a second either way,
                // clamped.
                assert_eq!((start, end), (wide(0.9), wide(2.125)));
            }
            other => panic!("expected a window, got {other:?}"),
        },
        other => panic!("expected preview, got {other:?}"),
    }

    // Move it up; the selection follows.
    app.update(key(KeyCode::Char('K')));
    assert_eq!(app.selected_clip, Some(1));
    assert_eq!(app.edit.clips()[1].span.t_end, at(0.925));

    // Remove it.
    app.update(key(KeyCode::Char('d')));
    assert_eq!(app.edit.clips().len(), 2);
    assert_eq!(app.selected_clip, Some(1));

    // Undo restores it, redo removes it again.
    app.update(key(KeyCode::Char('u')));
    assert_eq!(app.edit.clips().len(), 3);
    app.update(key(KeyCode::Char('U')));
    assert_eq!(app.edit.clips().len(), 2);

    // Rejected trims (start below zero) do nothing.
    let start = |app: &App| match app.edit.clips()[0].span.t_start {
        Real::Nano(n) => n,
        other => panic!("{other:?}"),
    };
    let before = start(&app);
    for _ in 0..50 {
        app.update(key(KeyCode::Char('<')));
    }
    assert!(start(&app) >= 0);
    assert!(start(&app) <= before);
}

#[test]
fn space_starts_preview_then_toggles_and_enter_seeks_to_clip() {
    let mut app = app_with_three_clips();
    app.update(key(KeyCode::Char(' ')));
    match next_cmd(&mut app) {
        PlayerCmd::Preview(p) => {
            assert!(p.uri.starts_with("edl://"));
            assert_eq!(p.seek, PreviewSeek::From(0));
        }
        other => panic!("expected preview, got {other:?}"),
    }
    // The preview is loaded now: Space toggles pause.
    app.update(key(KeyCode::Char(' ')));
    assert!(matches!(next_cmd(&mut app), PlayerCmd::TogglePause));

    // Enter plays from the selected clip's output position (the last append
    // left clip 2 selected; Up moves to clip 1).
    app.update(key(KeyCode::Up));
    app.update(key(KeyCode::Enter));
    match next_cmd(&mut app) {
        // Three 0.7 s clips: clip 1 starts at output 0.7.
        PlayerCmd::Preview(p) => assert_eq!(p.seek, PreviewSeek::From(wide(0.7))),
        other => panic!("expected preview, got {other:?}"),
    }

    // A mutation while the preview is active resumes in place.
    app.update(key(KeyCode::Char('d')));
    match next_cmd(&mut app) {
        PlayerCmd::Preview(p) => assert_eq!(p.seek, PreviewSeek::Resume { max: wide(1.4) }),
        other => panic!("expected preview, got {other:?}"),
    }
}

#[test]
fn save_key_writes_the_edit_file() {
    let mut app = app_with_three_clips();
    app.update(key(KeyCode::Char('s')));
    // The edit file is due; once it is written the session is clean.
    assert!(app.save_due);
    assert!(app.edit.dirty());
    app.saved();
    assert!(!app.edit.dirty());
    assert!(app.note.as_deref().unwrap().contains("saved"));
}

#[test]
fn failed_writes_surface_in_the_note() {
    let mut app = app_with_three_clips();
    app.update(key(KeyCode::Char('s')));
    app.save_failed("no space left".to_string());
    assert!(app.edit.dirty());
    assert_eq!(app.note.as_deref(), Some("no space left"));
    app.autosave_failed("autosaving failed".to_string());
    assert_eq!(app.note.as_deref(), Some("autosaving failed"));
}

#[test]
fn removing_the_last_clip_stops_an_active_preview() {
    let mut app = app_with_db();
    select_matched_hit(&mut app);
    app.update(ctrl('a'));
    app.update(key(KeyCode::Tab));
    app.update(key(KeyCode::Char(' ')));
    app.player.take();
    app.update(key(KeyCode::Char('d')));
    assert!(app.edit.clips().is_empty());
    assert!(matches!(next_cmd(&mut app), PlayerCmd::Stop));
    // With nothing to play, Space does nothing.
    app.update(key(KeyCode::Char(' ')));
    assert!(app.player.queue.is_empty());
}

#[test]
fn the_query_line_edits_at_its_cursor() {
    let mut app = app_with_db();
    for c in "hello".chars() {
        app.update(key(KeyCode::Char(c)));
    }
    app.update(key(KeyCode::Home));
    app.update(key(KeyCode::Delete));
    app.update(key(KeyCode::Char('j')));
    app.update(key(KeyCode::End));
    app.update(key(KeyCode::Left));
    app.update(key(KeyCode::Backspace));
    app.update(key(KeyCode::Right));
    app.update(key(KeyCode::Char('y')));
    assert_eq!(app.input.value(), "jeloy");
    // Moving the cursor asks nothing of the corpus.
    let before = app.generation;
    app.update(key(KeyCode::Left));
    assert_eq!(app.generation, before);
}

#[test]
fn the_cursor_stays_within_the_search_pane() {
    let mut app = app_with_db();
    assert_eq!(app.draw_input(12), InputPane { scroll: 0, cursor: Some(1) });
    for c in "hello world, hello".chars() {
        app.update(key(KeyCode::Char(c)));
    }
    // Eighteen columns in ten: eight are scrolled off.
    assert_eq!(app.draw_input(12), InputPane { scroll: 8, cursor: Some(11) });
    assert_eq!(app.draw_input(40), InputPane { scroll: 0, cursor: Some(19) });
    // A wide character takes two columns.
    app.update(key(KeyCode::Char('語')));
    assert_eq!(app.draw_input(40), InputPane { scroll: 0, cursor: Some(21) });
    // The edit pane has the keyboard: no cursor.
    app.update(key(KeyCode::Tab));
    assert_eq!(app.draw_input(40).cursor, None);
    // A pane of no width at all.
    assert_eq!(place_input(3, 0, 0, Pane::Search), InputPane { scroll: 0, cursor: Some(1) });
}

#[test]
fn released_keys_and_other_events_do_nothing() {
    let mut app = app_with_db();
    let up = Key { code: KeyCode::Char('a'), modifiers: 0 };
    app.update(Event::Term(TermEvent::Key { key: up, released: true }));
    app.update(Event::Term(TermEvent::Other));
    assert_eq!(app.generation, 0);
    assert_eq!(app.input.value(), "");
}

// What the screen shows.

fn test_app() -> App {
    App::new(
        "test.db".to_string(),
        Err("no corpus here".to_string()),
        PlayerHandle::new(),
        EditSession::empty("/edits/edit.json".to_string()),
        Vec::new(),
    )
}

fn all_text(screen: &Screen) -> String {
    let mut out = String::new();
    out.push_str(&screen.title);
    for row in &screen.rows {
        out.push_str(&row.cells.join(" "));
        out.push(' ');
        for piece in &row.line {
            out.push_str(&piece.text);
        }
        out.push('\n');
    }
    out.push_str(&screen.edit.title);
    for row in &screen.edit.rows {
        out.push_str(&row.join(" "));
        out.push('\n');
    }
    for piece in &screen.status {
        out.push_str(&piece.text);
    }
    out
}

#[test]
fn renders_hits_with_highlighted_matches() {
    let mut app = test_app();
    app.hits = vec![SearchHit {
        utterance_id: 1,
        source: CorpusSource {
            master_path: "master.mkv".to_string(),
            master_hash: "hash".to_string(),
            duration: ns(10.0),
            ..test_source(1)
        },
        t_start: ns(2.0),
        t_end: ns(4.0),
        text: "25 plus 25".to_string(),
        speaker: Some("Liquid".to_string()),
        multi_speaker: false,
        confidence: Some(at(0.8)),
        words: ["twenty", "five", "plus", "twenty", "five"]
            .iter()
            .enumerate()
            .map(|(i, w)| WordSpan {
                text: w.to_string(),
                t_start: ns(i as f64),
                t_end: ns(i as f64 + 1.0),
                confidence: None,
            })
            .collect(),
        matches: vec![0..2, 3..5],
    }];
    app.selected = Some(0);

    let screen = app.draw();
    let all = all_text(&screen);
    assert!(all.contains("twenty five plus twenty five"), "{all}");
    assert!(all.contains("Liquid"));
    assert!(all.contains("0.80"));
    assert!(all.contains("no corpus here"));
    assert_eq!(screen.selected, Some(0));

    // The matched tokens are highlighted; the connector "plus" is not.
    let look_at = |s: &str| {
        screen.rows[0].line.iter().find(|p| p.text.contains(s)).map(|p| p.look)
    };
    assert_eq!(look_at("twenty"), Some(Look::Match));
    assert_eq!(look_at("plus"), Some(Look::Plain));
}

#[test]
fn renders_the_edit_pane_with_clips_and_output_times() {
    let mut edit = EditSession::empty("/edits/edit.json".to_string());
    let source = CorpusSource {
        master_path: "/masters/m.mkv".to_string(),
        master_hash: "hash".to_string(),
        ..test_source(1)
    };
    for (t_start, t_end, label) in [(1.0, 2.0, "twenty"), (5.0, 5.5, "five")] {
        edit.append(
            Clip {
                span: Span {
                    source: SourceId(1),
                    t_start: at(t_start),
                    t_end: at(t_end),
                    channel: Channel::Both,
                },
                transforms: vec![Transform::Loop { count: 2 }],
                provenance: None,
                label: Some(label.to_string()),
            },
            &source,
        );
    }
    // Compile the plan the way a mutation would.
    let (plan, _) = edit.compile().unwrap();
    let plan = Some(plan);

    let title = edit_title(&edit, &plan);
    assert!(title.contains("2 clips"), "{title}");
    assert!(title.contains("3.00s"), "{title}"); // 2×1.0 + 2×0.5 looped
    assert!(title.contains('*'), "dirty marker: {title}");
    let rows: Vec<String> = clip_rows(&edit, &plan).iter().map(|r| r.join(" ")).collect();
    let all = rows.join("\n");
    assert!(all.contains("1.000–2.000"), "{all}");
    assert!(all.contains("⟳2"), "{all}");
    assert!(all.contains("twenty"), "{all}");
    // The second clip starts after the first one's two rounds.
    assert!(rows[1].contains("2.00"), "{}", rows[1]);
}

#[test]
fn the_edit_pane_follows_the_edit() {
    let app = app_with_three_clips();
    let screen = app.draw();
    assert_eq!(screen.focus, Pane::Edit);
    assert_eq!(screen.edit.rows.len(), 3);
    assert_eq!(screen.edit.selected, Some(2));
    assert!(screen.edit.title.contains("3 clips"), "{}", screen.edit.title);
    assert!(screen.edit.title.contains("2.10s"), "{}", screen.edit.title);
}

#[test]
fn badges_name_each_transform() {
    let all = badges(&vec![
        Transform::Loop { count: 3 },
        Transform::Reverse,
        Transform::Stutter { repeats: 2, slice: at(0.06) },
    ]);
    assert!(all.contains("⟳3"), "{all}");
    assert_eq!(badges(&Vec::new()), "");
}

#[test]
fn cells_are_padded_to_their_width() {
    assert_eq!(align_right("7", 3), "  7");
    assert_eq!(align_left("7", 3), "7  ");
    assert_eq!(align_right("1234", 3), "1234");
}

#[test]
fn a_hit_without_words_is_drawn() {
    let mut app = App::new(
        "test.db".to_string(),
        Err("no corpus here".to_string()),
        PlayerHandle::new(),
        EditSession::empty("edit.json".to_string()),
        Vec::new(),
    );
    app.update(key(KeyCode::Char('x')));
    let mut h = hit("25 plus 25");
    h.matches = vec![0..2, 3..5];
    app.hits = vec![h];
    let screen = app.draw();
    assert_eq!(screen.title, "Results — 2 matches in 1 utterance");
    assert!(screen.status[0].text.starts_with("no corpus here"));
}

#[test]
fn editing_keys_of_the_query_line() {
    let mut app = app_with_db();
    for c in "ab cd".chars() {
        app.update(key(KeyCode::Char(c)));
    }
    app.update(key(KeyCode::Left));
    app.update(ctrl('h'));
    assert_eq!(app.input.value(), "ab d");
    app.update(ctrl('e'));
    app.update(ctrl('w'));
    assert_eq!(app.input.value(), "ab ");
    app.update(ctrl('y'));
    assert_eq!(app.input.value(), "ab d");
    app.update(ctrl('b'));
    app.update(key(KeyCode::Delete));
    assert_eq!(app.input.value(), "ab ");
    let before = app.generation;
    app.update(ctrl('z'));
    app.update(ctrl('f'));
    assert_eq!(app.generation, before);
    assert_eq!(app.input.value(), "ab ");
}

#[test]
fn what_is_cut_from_the_query_line_is_put_back() {
    let mut app = app_with_db();
    let typed = "say \"hi\" \\ now";
    for c in typed.chars() {
        app.update(key(KeyCode::Char(c)));
    }
    // Quotes and backslashes are characters like any other.
    for _ in 0..5 {
        app.update(key(KeyCode::Left));
    }
    app.update(key(KeyCode::Backspace));
    assert_eq!(app.input.value(), "say \"hi\"\\ now");
    // What is cut at the cursor comes back whole.
    app.update(ctrl('k'));
    assert_eq!(app.input.value(), "say \"hi\"");
    app.update(ctrl('y'));
    assert_eq!(app.input.value(), "say \"hi\"\\ now");
    // Cuts in a row are joined, the later one in front.
    app.update(ctrl('w'));
    app.update(ctrl('w'));
    assert_eq!(app.input.value(), "say \"");
    app.update(ctrl('y'));
    assert_eq!(app.input.value(), "say \"hi\"\\ now");
    // Any other key begins a new cut.
    app.update(ctrl('w'));
    app.update(key(KeyCode::Home));
    app.update(ctrl('k'));
    app.update(ctrl('y'));
    app.update(ctrl('y'));
    assert_eq!(app.input.value(), "say \"hi\"\\ say \"hi\"\\ ");
    // A character with an accent of its own is taken out as one.
    for c in "e\u{301}".chars() {
        app.update(key(KeyCode::Char(c)));
    }
    app.update(key(KeyCode::Backspace));
    assert_eq!(app.input.value(), "say \"hi\"\\ say \"hi\"\\ ");
}

#[test]
fn an_undo_after_a_save_keeps_the_edit_loadable() {
    let mut app = app_with_db();
    select_matched_hit(&mut app);
    app.update(ctrl('a'));
    app.update(key(KeyCode::Tab));
    app.update(key(KeyCode::Delete));
    app.update(key(KeyCode::Char('s')));
    assert!(app.save_due);
    app.saved();
    assert!(app.edit.edl.sources.is_empty());
    app.update(key(KeyCode::Char('u')));
    assert_eq!(app.edit.clips().len(), 1);
    assert!(app.edit.edl.sources.contains_key(&1));
    assert!(app.autosave_due);
}
