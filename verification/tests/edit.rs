use dipho::edl::rebind::{CorpusSource, RebindError};
use dipho::edl::{Clip, Edl};
use dipho::number::{Rate, Real};
use dipho::span::{Channel, SourceId, Span};
use dipho::tui::edit::{
    autosave_path, open_from, Edge, EditSession, OpenError, OpenFrom, UNDO_LIMIT,
};

fn ns(seconds: f64) -> i64 {
    (seconds * 1e9).round() as i64
}

fn source(id: i64) -> CorpusSource {
    CorpusSource {
        id: SourceId(id),
        origin: format!("https://example.com/{id}"),
        origin_id: format!("yt:{id}"),
        master_path: format!("/masters/{id}/master.mkv"),
        master_hash: format!("hash-{id}"),
        duration: ns(100.0),
        fps: Rate::new(30, 1),
    }
}

fn clip(source: i64, t_start: f64, t_end: f64) -> Clip {
    Clip {
        span: Span {
            source: SourceId(source),
            t_start: Real::Nano(ns(t_start)),
            t_end: Real::Nano(ns(t_end)),
            channel: Channel::Both,
        },
        transforms: vec![],
        provenance: None,
        label: Some("word".to_string()),
    }
}

fn session_with_two_clips() -> EditSession {
    let mut session = EditSession::empty("/edits/edit.json".to_string());
    session.append(clip(1, 1.0, 2.0), &source(1));
    session.append(clip(1, 5.0, 6.0), &source(1));
    session
}

/// What a write of the edit and a read of it give back.
fn copy(edl: &Edl) -> Edl {
    Edl { clips: edl.clips.clone(), sources: edl.sources.clone() }
}

fn edges(session: &EditSession) -> Vec<(Real, Real)> {
    session.clips().iter().map(|c| (c.span.t_start, c.span.t_end)).collect()
}

fn at(seconds: f64) -> Real {
    Real::Nano(ns(seconds))
}

#[test]
fn append_records_manifest_and_source_map_once() {
    let session = session_with_two_clips();
    assert_eq!(session.edl.clips.len(), 2);
    assert_eq!(session.edl.sources.len(), 1);
    assert_eq!(session.edl.sources[&1].master_filename, "master.mkv");
    assert_eq!(session.source_map.len(), 1);
    assert!(session.dirty());
}

#[test]
fn trim_validates_against_source_bounds_and_min_length() {
    let mut session = session_with_two_clips();
    assert!(session.trim(0, Edge::Start, ns(-0.025)));
    assert_eq!(session.clips()[0].span.t_start, at(0.975));
    assert!(session.trim(0, Edge::End, ns(0.005)));
    assert_eq!(session.clips()[0].span.t_end, at(2.005));
    // The start cannot cross below zero, the end cannot pass the source's
    // duration, and the clip cannot collapse.
    assert!(!session.trim(0, Edge::Start, ns(-1.0)));
    assert!(!session.trim(1, Edge::End, ns(95.0)));
    assert!(!session.trim(0, Edge::Start, ns(1.04)));
    // Rejected trims change nothing.
    assert_eq!(session.clips()[0].span.t_start, at(0.975));
}

#[test]
fn undo_redo_round_trips_every_mutation_kind() {
    let mut session = session_with_two_clips();
    session.trim(0, Edge::End, ns(0.025));
    session.shift(0, 1);
    session.remove(0);
    assert_eq!(session.clips().len(), 1);

    assert!(session.undo()); // un-remove
    assert_eq!(session.clips().len(), 2);
    assert!(session.undo()); // un-shift
    assert_eq!(session.clips()[0].span.t_end, at(2.025));
    assert!(session.undo()); // un-trim
    assert_eq!(session.clips()[0].span.t_end, at(2.0));

    assert!(session.redo());
    assert_eq!(session.clips()[0].span.t_end, at(2.025));
    // A new mutation invalidates the redo branch.
    session.trim(0, Edge::End, ns(0.005));
    assert!(!session.redo());
    // Two appends remain undoable beneath everything.
    while session.undo() {}
    assert!(session.clips().is_empty());
}

#[test]
fn save_then_open_round_trips_through_rebind() {
    let mut session = session_with_two_clips();
    session.prune();
    session.mark_saved();
    assert!(!session.dirty());

    let (reopened, warnings) = EditSession::open(
        session.path().to_string(),
        Some((copy(&session.edl), false)),
        &vec![source(1)],
    )
    .unwrap();
    assert!(warnings.is_empty());
    assert!(!reopened.recovered());
    // Every field of every clip and entry.
    assert_eq!(format!("{:?}", reopened.edl), format!("{:?}", session.edl));
    assert_eq!(reopened.source_map.len(), 1);
}

#[test]
fn autosave_is_recovered_and_committed_only_on_explicit_save() {
    let mut session = session_with_two_clips();
    session.mark_saved();
    // More work, written to the recovery file but never saved (a crash).
    session.trim(0, Edge::End, ns(0.025));
    let autosaved = copy(&session.edl);
    assert_eq!(open_from(true, true), OpenFrom::Autosave);

    let path = session.path().to_string();
    let (mut recovered, _) =
        EditSession::open(path.clone(), Some((autosaved, true)), &vec![source(1)]).unwrap();
    assert!(recovered.recovered());
    assert!(recovered.dirty());
    assert_eq!(recovered.clips()[0].span.t_end, at(2.025));
    recovered.prune();
    recovered.mark_saved();
    assert!(!recovered.recovered());

    assert_eq!(open_from(false, true), OpenFrom::File);
    let (clean, _) =
        EditSession::open(path, Some((copy(&recovered.edl), false)), &vec![source(1)]).unwrap();
    assert!(!clean.recovered());
    assert_eq!(clean.clips()[0].span.t_end, at(2.025));
}

#[test]
fn open_of_a_missing_file_is_an_empty_session() {
    assert_eq!(open_from(false, false), OpenFrom::Nothing);
    let (session, warnings) =
        EditSession::open("/edits/edit.json".to_string(), None, &vec![source(1)]).unwrap();
    assert!(warnings.is_empty());
    assert!(session.clips().is_empty());
    assert!(!session.dirty());
}

#[test]
fn open_with_an_unresolvable_source_is_an_error() {
    let session = session_with_two_clips();
    let path = session.path().to_string();
    let e = EditSession::open(path.clone(), Some((copy(&session.edl), false)), &Vec::new())
        .map(|_| ())
        .unwrap_err();
    assert!(matches!(&e, OpenError::Bind(RebindError::UnresolvedSource { .. })));
    assert!(e.context(&path).contains("binding edit"), "{}", e.context(&path));
}

#[test]
fn open_of_an_edit_without_its_manifest_entry_is_an_error() {
    let edl = Edl { clips: vec![clip(3, 0.0, 1.0)], sources: Edl::empty().sources };
    let e = EditSession::open("/edits/edit.json".to_string(), Some((edl, false)), &vec![source(3)])
        .map(|_| ())
        .unwrap_err();
    assert!(matches!(e, OpenError::Load(_)));
    assert!(e.context("/edits/edit.json").contains("loading edit /edits/edit.json"));
}

#[test]
fn save_prunes_unreferenced_manifest_entries() {
    let mut session = session_with_two_clips();
    session.append(clip(2, 0.0, 1.0), &source(2));
    session.remove(2);
    assert_eq!(session.edl.sources.len(), 2);
    session.prune();
    assert_eq!(session.edl.sources.len(), 1);
    assert!(session.edl.sources.contains_key(&1));
}

#[test]
fn compile_produces_plan_and_uri() {
    let session = session_with_two_clips();
    let (plan, mpv) = session.compile().unwrap();
    assert_eq!(plan.segments.len(), 2);
    assert_eq!(plan.total_duration, ns(2.0) as i128);
    assert!(mpv.uri().starts_with("edl://"));
}

#[test]
fn moves_out_of_range_change_nothing() {
    let mut session = session_with_two_clips();
    session.mark_saved();
    let before = edges(&session);
    assert_eq!(session.shift(0, -1), None);
    assert_eq!(session.shift(1, 1), None);
    assert!(!session.remove(2));
    assert!(!session.trim(2, Edge::End, 1));
    assert_eq!(edges(&session), before);
    assert!(!session.dirty());
    assert_eq!(session.shift(0, 1), Some(1));
    assert_eq!(edges(&session), vec![before[1], before[0]]);
}

#[test]
fn undo_reaches_back_a_bounded_number_of_steps() {
    let mut session = session_with_two_clips();
    for _ in 0..UNDO_LIMIT + 10 {
        assert!(session.trim(0, Edge::End, ns(0.001)));
    }
    let mut steps = 0;
    while session.undo() {
        steps += 1;
    }
    assert_eq!(steps, UNDO_LIMIT);
    assert_eq!(session.clips()[0].span.t_end, at(2.010));
}

#[test]
fn the_recovery_file_stands_beside_the_edit() {
    assert_eq!(autosave_path("/edits/edit.json"), "/edits/edit.json.autosave");
    assert_eq!(autosave_path("edit.json"), "edit.json.autosave");
}

/// Whether what is written next would load again.
fn covered(session: &EditSession) -> bool {
    session.clips().iter().all(|c| session.edl.sources.contains_key(&c.span.source.0))
}

fn save(session: &mut EditSession) {
    session.prune();
    session.mark_saved();
}

#[test]
fn an_undo_after_a_save_brings_the_manifest_entry_back() {
    let mut session = EditSession::empty("/edits/edit.json".to_string());
    session.append(clip(1, 1.0, 2.0), &source(1));
    session.append(clip(2, 0.0, 1.0), &source(2));
    session.remove(1);
    save(&mut session);
    assert_eq!(session.edl.sources.len(), 1);
    assert!(session.undo());
    assert_eq!(session.clips().len(), 2);
    assert!(covered(&session));
    assert_eq!(session.edl.sources[&2].origin_id, "yt:2");
    let (reopened, warnings) = EditSession::open(
        "/edits/edit.json".to_string(),
        Some((copy(&session.edl), true)),
        &vec![source(1), source(2)],
    )
    .unwrap();
    assert!(warnings.is_empty());
    assert_eq!(format!("{:?}", reopened.edl), format!("{:?}", session.edl));
}

#[test]
fn a_redo_after_a_save_brings_the_manifest_entry_back() {
    let mut session = EditSession::empty("/edits/edit.json".to_string());
    session.append(clip(3, 1.0, 2.0), &source(3));
    assert!(session.undo());
    save(&mut session);
    assert!(session.edl.sources.is_empty());
    assert!(session.redo());
    assert_eq!(session.clips().len(), 1);
    assert!(covered(&session));
    // Back and forth, over more saves.
    assert!(session.undo());
    save(&mut session);
    save(&mut session);
    assert!(session.redo());
    assert!(covered(&session));
    assert!(session.dirty());
}

#[test]
fn trims_of_spans_that_are_no_numbers_are_rejected() {
    let mut session = session_with_two_clips();
    for (start, end) in [
        (Real::NaN, at(2.0)),
        (at(1.0), Real::NaN),
        (at(1.0), Real::Infinity),
        (Real::NegInfinity, at(2.0)),
    ] {
        let mut odd = clip(1, 1.0, 2.0);
        odd.span.t_start = start;
        odd.span.t_end = end;
        session.append(odd, &source(1));
        let last = session.clips().len() - 1;
        assert!(!session.trim(last, Edge::Start, 1));
        assert!(!session.trim(last, Edge::End, -1));
    }
}
