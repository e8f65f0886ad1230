//! Application state and its update: pure event handling. What is to be done
//! outside is left in the state: search requests, player requests, and whether
//! the edit is to be autosaved or saved.
use super::db::{request_views, DbHandle, RequestView};
use super::edit::{
    compiled, law_edits_keep_to_the_manifest, law_every_clip_keeps_its_entry, lemma_wf_kept, Edge,
    EditSession, SessionView,
};
use super::event::{hits_proper, Event, Key, KeyCode, TermEvent};
use super::line::{
    columns_before, columns_scrolled, cursor_columns, law_cursor_stays_in_its_line, line_cursor,
    line_cut, line_cutting, line_edit, line_key, line_key_of, line_request, line_text,
    new_line, press, scroll_columns, stops, Line, LineView,
};
use super::ui::{
    clip_cells_of, clip_rows, edit_title, edit_title_of, highlighted_line, highlighted_words,
    hit_cells, hit_cells_of, results_title, results_title_of, status_line, status_of, styled_views,
    Styled,
};
use super::player::{
    cmd_views, Audition, CmdView, PlayerHandle, PlayerUpdate, Preview, PreviewSeek, UpdateView,
};
use crate::corpus::search::{range_views, word_texts, SearchHit};
use crate::edl::compile::{
    edit_fault, edit_segments, entry_texts, interval_views, outputs, PreviewPlan, runs, segment_views, SegmentView, total,
};
use crate::edl::{compile_message, opt_text, Clip, ClipView, ProvenanceRef};
use crate::number::Real;
use crate::span::{Channel, Span};
use crate::text::{chars_of, join, joined, string_of, texts, trim, trimmed_text};
use vstd::prelude::*;
use vstd::string::StringExecFns;

verus! {

/// Context around the matched span for the play-with-context key, in
/// nanoseconds.
pub const CONTEXT_PAD: i128 = 500_000_000;

/// Output time around a trimmed clip for the neighborhood replay, in
/// nanoseconds.
pub const REPLAY_PAD: i128 = 500_000_000;

/// The fine trim step, in nanoseconds.
pub const NUDGE_FINE: i64 = 5_000_000;

/// The coarse trim step, in nanoseconds.
pub const NUDGE_COARSE: i64 = 25_000_000;

/// How far a page key moves a selection.
pub const PAGE: isize = 10;

/// The three audition actions, one key each.
#[derive(Debug, Clone, Copy, PartialEq, Eq, Structural)]
pub enum AuditionKind {
    /// Loop the exact matched span.
    LoopExact,
    /// The matched span with context, played once.
    Context,
    /// The whole utterance, played once.
    FullUtterance,
}

/// Which pane owns the keyboard.
#[derive(Debug, Clone, Copy, PartialEq, Eq, Structural)]
pub enum Pane {
    Search,
    Edit,
}

/// One row of the results: its cells, then the utterance.
#[derive(Debug)]
pub struct HitRow {
    pub cells: Vec<String>,
    pub line: Vec<Styled>,
}

/// What the edit pane shows.
#[derive(Debug)]
pub struct EditPane {
    pub title: String,
    pub rows: Vec<Vec<String>>,
    pub selected: Option<usize>,
}

/// The search pane's line: by how many columns its text is scrolled, and at
/// which column of the pane the cursor stands, where the pane has it.
#[derive(Debug, Clone, Copy, PartialEq, Eq, Structural)]
pub struct InputPane {
    pub scroll: u16,
    pub cursor: Option<u16>,
}

/// What the screen shows.
#[derive(Debug)]
pub struct Screen {
    pub focus: Pane,
    pub query: String,
    pub title: String,
    pub rows: Vec<HitRow>,
    pub selected: Option<usize>,
    pub edit: EditPane,
    pub status: Vec<Styled>,
}

/// What a key does in the edit pane.
#[derive(Debug, Clone, Copy, PartialEq, Eq, Structural)]
pub enum EditAction {
    MoveClip(isize),
    MoveSelection(isize),
    Remove,
    Undo,
    Redo,
    Trim(Edge, i64),
    TogglePreview,
    PreviewFromSelected,
    Save,
    Nothing,
}

/// The application.
pub struct App {
    pub corpus_db: String,
    pub input: Line,
    pub hits: Vec<SearchHit>,
    /// The selected hit.
    pub selected: Option<usize>,
    /// Query revision; results tagged with an older one are stale.
    pub generation: u64,
    pub searching: bool,
    /// A problem or confirmation to surface in the status line.
    pub note: Option<String>,
    /// Latest player status; none until mpv reports in.
    pub player_state: Option<PlayerUpdate>,
    pub quit: bool,
    pub focus: Pane,
    pub edit: EditSession,
    /// The selected clip.
    pub selected_clip: Option<usize>,
    /// The compiled preview geometry, recomputed after every mutation.
    pub plan: Option<PreviewPlan>,
    /// The edit is to be written to its recovery file.
    pub autosave_due: bool,
    /// The edit is to be written to its file.
    pub save_due: bool,
    /// Search requests to hand on; none without a corpus.
    pub db: Option<DbHandle>,
    /// Player requests to hand on.
    pub player: PlayerHandle,
    /// The URI of the compiled preview.
    pub preview_uri: Option<String>,
    /// mpv has the preview timeline loaded (rather than a master), so that the
    /// preview key pauses instead of loading.
    pub preview_active: bool,
}

/// The application, as a value.
#[verifier::ext_equal]
pub struct AppView {
    pub corpus_db: Seq<char>,
    pub text: Seq<char>,
    pub cursor: nat,
    pub cut: Seq<char>,
    pub cutting: bool,
    pub hits: Seq<SearchHit>,
    pub selected: Option<usize>,
    pub generation: int,
    pub searching: bool,
    pub note: Option<Seq<char>>,
    pub player_state: Option<UpdateView>,
    pub quit: bool,
    pub focus: Pane,
    pub edit: SessionView,
    pub selected_clip: Option<usize>,
    pub autosave_due: bool,
    pub save_due: bool,
    pub requests: Option<Seq<RequestView>>,
    pub commands: Seq<CmdView>,
    pub active: bool,
}

/// The requests of a reader that may be missing.
pub open spec fn db_requests(db: Option<DbHandle>) -> Option<Seq<RequestView>> {
    match db {
        Some(h) => Some(request_views(h.queue@)),
        None => None,
    }
}

/// An optional status, as a value.
pub open spec fn update_view(u: Option<PlayerUpdate>) -> Option<UpdateView> {
    match u {
        Some(u) => Some(u@),
        None => None,
    }
}

impl View for App {
    type V = AppView;

    open spec fn view(&self) -> AppView {
        AppView {
            corpus_db: self.corpus_db@,
            text: line_text(self.input),
            cursor: line_cursor(self.input),
            cut: line_cut(self.input),
            cutting: line_cutting(self.input),
            hits: self.hits@,
            selected: self.selected,
            generation: self.generation as int,
            searching: self.searching,
            note: opt_text(self.note),
            player_state: update_view(self.player_state),
            quit: self.quit,
            focus: self.focus,
            edit: self.edit@,
            selected_clip: self.selected_clip,
            autosave_due: self.autosave_due,
            save_due: self.save_due,
            requests: db_requests(self.db),
            commands: cmd_views(self.player.queue@),
            active: self.preview_active,
        }
    }
}

// -------------------------------------------------------------- what is decided

/// The preview URI of an edit that compiles.
pub open spec fn uri_of(e: SessionView) -> Seq<char> {
    "edl://"@ + joined(entry_texts(edit_segments(e.clips, e.infos)), ";"@)
}

/// The output intervals of an edit's clips.
pub open spec fn outputs_of(e: SessionView) -> Seq<(int, int)> {
    outputs(e.clips, e.infos, runs(e.clips))
}

/// The output length of an edit.
pub open spec fn length_of(e: SessionView) -> int {
    total(edit_segments(e.clips, e.infos))
}

/// Whether a hit has a first match, of words that it has.
pub open spec fn playable(hit: SearchHit) -> bool {
    &&& hit.matches@.len() > 0
    &&& hit.matches@[0].start < hit.matches@[0].end <= hit.words@.len()
}

/// The words of a hit's first match, joined.
pub open spec fn phrase_of(hit: SearchHit) -> Seq<char> {
    let m = hit.matches@[0];
    joined(word_texts(hit.words@).subrange(m.start as int, m.end as int), " "@)
}

/// Where a hit's first match begins.
pub open spec fn match_start(hit: SearchHit) -> int {
    hit.words@[hit.matches@[0].start as int].t_start as int
}

/// Where a hit's first match ends.
pub open spec fn match_end(hit: SearchHit) -> int {
    hit.words@[hit.matches@[0].end - 1].t_end as int
}

/// The audition of a hit's first match.
pub open spec fn audition_of(hit: SearchHit, kind: AuditionKind) -> CmdView {
    let master_path = hit.source@.master_path;
    match kind {
        AuditionKind::LoopExact => CmdView::Audition {
            master_path,
            start: match_start(hit),
            end: match_end(hit),
            looped: true,
            label: phrase_of(hit),
        },
        AuditionKind::Context => CmdView::Audition {
            master_path,
            start: if match_start(hit) < CONTEXT_PAD {
                0
            } else {
                match_start(hit) - CONTEXT_PAD
            },
            end: match_end(hit) + CONTEXT_PAD,
            looped: false,
            label: phrase_of(hit),
        },
        AuditionKind::FullUtterance => CmdView::Audition {
            master_path,
            start: hit.t_start as int,
            end: hit.t_end as int,
            looped: false,
            label: hit.text@,
        },
    }
}

/// The clip of a hit's first match.
pub open spec fn clip_of(hit: SearchHit) -> ClipView {
    ClipView {
        span: Span {
            source: hit.source.id,
            t_start: Real::Nano(match_start(hit) as i64),
            t_end: Real::Nano(match_end(hit) as i64),
            channel: Channel::Both,
        },
        transforms: Seq::empty(),
        provenance: Some(ProvenanceRef::Utterance(hit.utterance_id)),
        label: Some(phrase_of(hit)),
    }
}

/// A selection moved within `len` items: none moves nothing.
pub open spec fn moved_to(selected: Option<usize>, delta: isize, len: nat) -> usize {
    let current = match selected {
        Some(i) => i as int,
        None => 0,
    };
    let to = current + delta;
    (if to < 0 {
        0
    } else if to >= len {
        len - 1
    } else {
        to
    }) as usize
}

/// The selection of item `i` of `len`, clamped.
pub open spec fn clamped_to(i: usize, len: nat) -> Option<usize> {
    if len == 0 {
        None
    } else if i >= len {
        Some((len - 1) as usize)
    } else {
        Some(i)
    }
}

/// What a key does in the edit pane.
pub open spec fn edit_action_of(key: Key) -> EditAction {
    match key.code {
        KeyCode::Up => if key.has_shift() {
            EditAction::MoveClip((-1) as isize)
        } else {
            EditAction::MoveSelection((-1) as isize)
        },
        KeyCode::Down => if key.has_shift() {
            EditAction::MoveClip(1)
        } else {
            EditAction::MoveSelection(1)
        },
        KeyCode::PageUp => EditAction::MoveSelection((-PAGE) as isize),
        KeyCode::PageDown => EditAction::MoveSelection(PAGE),
        KeyCode::Delete => EditAction::Remove,
        KeyCode::Backspace => EditAction::Remove,
        KeyCode::Enter => EditAction::PreviewFromSelected,
        KeyCode::Char(c) => if c == 'K' {
            EditAction::MoveClip((-1) as isize)
        } else if c == 'J' {
            EditAction::MoveClip(1)
        } else if c == 'd' {
            EditAction::Remove
        } else if c == 'u' {
            EditAction::Undo
        } else if c == 'U' || (c == 'r' && key.has_control()) {
            EditAction::Redo
        } else if c == ',' {
            EditAction::Trim(Edge::Start, (-NUDGE_FINE) as i64)
        } else if c == '.' {
            EditAction::Trim(Edge::Start, NUDGE_FINE)
        } else if c == '<' {
            EditAction::Trim(Edge::Start, (-NUDGE_COARSE) as i64)
        } else if c == '>' {
            EditAction::Trim(Edge::Start, NUDGE_COARSE)
        } else if c == '[' {
            EditAction::Trim(Edge::End, (-NUDGE_FINE) as i64)
        } else if c == ']' {
            EditAction::Trim(Edge::End, NUDGE_FINE)
        } else if c == '{' {
            EditAction::Trim(Edge::End, (-NUDGE_COARSE) as i64)
        } else if c == '}' {
            EditAction::Trim(Edge::End, NUDGE_COARSE)
        } else if c == ' ' {
            EditAction::TogglePreview
        } else if c == 's' {
            EditAction::Save
        } else {
            EditAction::Nothing
        },
        _ => EditAction::Nothing,
    }
}

/// The output length of an edit, where it compiles.
pub open spec fn shown_length(e: SessionView) -> Option<int> {
    if edit_fault(e.clips, e.infos) is Some {
        None
    } else {
        Some(length_of(e))
    }
}

/// Where a clip begins in the output, where the edit compiles.
pub open spec fn shown_start(e: SessionView, i: int) -> Option<int> {
    if edit_fault(e.clips, e.infos) is Some || !(0 <= i < outputs_of(e).len()) {
        None
    } else {
        Some(outputs_of(e)[i].0)
    }
}

impl EditPane {
    /// Whether the pane is the one of an edit.
    pub open spec fn shows(&self, s: AppView) -> bool {
        &&& self.title@ == edit_title_of(
            s.edit.path,
            s.edit.dirty,
            s.edit.clips.len(),
            shown_length(s.edit),
        )
        &&& self.rows@.len() == s.edit.clips.len()
        &&& forall|i: int|
            #![trigger self.rows@[i]]
            0 <= i < self.rows@.len() ==> texts(self.rows@[i]@) == clip_cells_of(
                i as nat,
                s.edit.clips[i],
                shown_start(s.edit, i),
            )
        &&& self.selected == s.selected_clip
    }
}

impl HitRow {
    /// Whether the row is the one of a hit.
    pub open spec fn shows(&self, hit: SearchHit) -> bool {
        &&& texts(self.cells@) == hit_cells_of(hit)
        &&& styled_views(self.line@) == highlighted_words(
            word_texts(hit.words@),
            range_views(hit.matches@),
            hit.words@.len() as int,
        )
    }
}

impl Screen {
    /// Whether the screen is the one of a state.
    pub open spec fn shows(&self, s: AppView) -> bool {
        &&& self.focus == s.focus
        &&& self.query@ == s.text
        &&& self.title@ == results_title_of(s.text, s.hits)
        &&& self.rows@.len() == s.hits.len()
        &&& forall|i: int|
            #![trigger self.rows@[i]]
            0 <= i < self.rows@.len() ==> self.rows@[i].shows(s.hits[i])
        &&& self.selected == s.selected
        &&& self.edit.shows(s)
        &&& styled_views(self.status@) == status_of(
            s.note,
            s.searching,
            s.corpus_db,
            s.player_state,
            s.focus,
        )
    }
}

impl AppView {
    /// Whether the selections point into their lists.
    pub open spec fn in_range(self) -> bool {
        &&& self.selected is Some ==> self.selected->0 < self.hits.len()
        &&& self.selected_clip is Some ==> self.selected_clip->0 < self.edit.clips.len()
    }

    /// The hit that the selection points to, where it has a match.
    pub open spec fn chosen(self) -> Option<SearchHit> {
        match self.selected {
            Some(i) => if i < self.hits.len() && self.hits[i as int].matches@.len() > 0 {
                Some(self.hits[i as int])
            } else {
                None
            },
            None => None,
        }
    }

    /// Whether a key plays or appends the chosen hit.
    pub open spec fn uses_hit(self, key: Key) -> bool {
        if key.code == KeyCode::Char('a') && key.has_control() {
            true
        } else {
            self.focus == Pane::Search && (key.code == KeyCode::Enter || (key.has_control() && (
            key.code == KeyCode::Char('t') || key.code == KeyCode::Char('u'))))
        }
    }

    /// Whether the chosen hit's first match is one of its words, where an event
    /// plays or appends it.
    pub open spec fn ready_for(self, event: Event) -> bool {
        match event {
            Event::Term(TermEvent::Key { key, released }) => !released && self.uses_hit(key) ==> (
            self.chosen() matches Some(hit) ==> playable(hit)),
            _ => true,
        }
    }

    /// With one more player request.
    pub open spec fn asked(self, cmd: CmdView) -> AppView {
        AppView { commands: self.commands.push(cmd), ..self }
    }

    /// With the selection on hit `i`, clamped.
    pub open spec fn selecting(self, i: usize) -> AppView {
        AppView { selected: clamped_to(i, self.hits.len()), ..self }
    }

    /// With the clip selection on clip `i`, clamped.
    pub open spec fn selecting_clip(self, i: usize) -> AppView {
        AppView { selected_clip: clamped_to(i, self.edit.clips.len()), ..self }
    }

    /// With the clip selection clamped, after the clips changed under it.
    pub open spec fn reselecting_clip(self) -> AppView {
        self.selecting_clip(
            match self.selected_clip {
                Some(i) => i,
                None => 0,
            },
        )
    }

    /// After a recompile: a fault is told.
    pub open spec fn recompiled(self) -> AppView {
        match edit_fault(self.edit.clips, self.edit.infos) {
            Some(fault) => AppView { note: Some(compile_message(fault)), ..self },
            None => self,
        }
    }

    /// After the edit was changed: autosave, recompile, and the right preview:
    /// a neighborhood replay around a trimmed clip, else a resume in place
    /// where the preview is loaded, and a stop where nothing is left to play.
    #[verifier::opaque]
    pub open spec fn after_mutation(self, replay: Option<usize>) -> AppView {
        let s = AppView { autosave_due: true, ..self }.recompiled();
        if edit_fault(self.edit.clips, self.edit.infos) is Some {
            s
        } else if self.edit.clips.len() == 0 {
            if self.active {
                AppView { active: false, ..s.asked(CmdView::Stop) }
            } else {
                s
            }
        } else {
            let uri = uri_of(self.edit);
            let length = length_of(self.edit);
            match replay {
                Some(i) => if i < outputs_of(self.edit).len() {
                    let (start, end) = outputs_of(self.edit)[i as int];
                    let seek = PreviewSeek::Window {
                        start: (if start - REPLAY_PAD < 0 {
                            0
                        } else {
                            start - REPLAY_PAD
                        }) as i128,
                        end: (if end + REPLAY_PAD > length {
                            length
                        } else {
                            end + REPLAY_PAD
                        }) as i128,
                    };
                    AppView { active: true, ..s.asked(CmdView::Preview { uri, seek }) }
                } else {
                    s
                },
                None => if self.active {
                    s.asked(
                        CmdView::Preview { uri, seek: PreviewSeek::Resume { max: length as i128 } },
                    )
                } else {
                    s
                },
            }
        }
    }

    /// After the query text was edited: a new revision, searched where it is
    /// not blank.
    pub open spec fn searched(self) -> AppView {
        let query = trimmed_text(self.text);
        let s = AppView { generation: self.generation + 1, ..self };
        if query.len() == 0 {
            AppView { hits: Seq::empty(), searching: false, selected: None, ..s }
        } else {
            match self.requests {
                Some(queue) => AppView {
                    requests: Some(
                        queue.push(RequestView { generation: self.generation + 1, query }),
                    ),
                    searching: true,
                    ..s
                },
                None => s,
            }
        }
    }

    /// After an audition key.
    pub open spec fn auditioned(self, kind: AuditionKind) -> AppView {
        match self.chosen() {
            Some(hit) => AppView { active: false, ..self.asked(audition_of(hit, kind)) },
            None => self,
        }
    }

    /// After the key that appends the chosen hit as a clip.
    pub open spec fn hit_appended(self) -> AppView {
        match self.chosen() {
            Some(hit) => AppView {
                edit: self.edit.appended(clip_of(hit), hit.source@),
                selected_clip: Some(self.edit.clips.len() as usize),
                ..self
            }.after_mutation(None),
            None => self,
        }
    }

    /// After a key that moves the hit selection.
    pub open spec fn selection_moved(self, delta: isize) -> AppView {
        if self.hits.len() == 0 {
            self
        } else {
            self.selecting(moved_to(self.selected, delta, self.hits.len()))
        }
    }

    /// After an action of the edit pane.
    pub open spec fn edited(self, action: EditAction) -> AppView {
        match action {
            EditAction::Nothing => self,
            EditAction::MoveSelection(delta) => if self.edit.clips.len() == 0 {
                self
            } else {
                self.selecting_clip(moved_to(self.selected_clip, delta, self.edit.clips.len()))
            },
            EditAction::MoveClip(delta) => match self.selected_clip {
                None => self,
                Some(i) => match self.edit.shift_target(i as int, delta as int) {
                    None => self,
                    Some(to) => AppView {
                        edit: self.edit.mutated(self.edit.exchanged(i as int, to)),
                        selected_clip: Some(to as usize),
                        ..self
                    }.after_mutation(None),
                },
            },
            EditAction::Remove => match self.selected_clip {
                None => self,
                Some(i) => if i < self.edit.clips.len() {
                    AppView {
                        edit: self.edit.mutated(self.edit.clips.remove(i as int)),
                        ..self
                    }.selecting_clip(i).after_mutation(None)
                } else {
                    self
                },
            },
            EditAction::Trim(edge, delta) => match self.selected_clip {
                None => self,
                Some(i) => match self.edit.trim_result(i as int, edge, delta as int) {
                    None => self,
                    Some(clip) => AppView {
                        edit: self.edit.mutated(self.edit.clips.update(i as int, clip)),
                        ..self
                    }.after_mutation(Some(i)),
                },
            },
            EditAction::Undo => if self.edit.undo.len() == 0 {
                self
            } else {
                AppView { edit: self.edit.undone(), ..self }.reselecting_clip().after_mutation(None)
            },
            EditAction::Redo => if self.edit.redo.len() == 0 {
                self
            } else {
                AppView { edit: self.edit.redone(), ..self }.reselecting_clip().after_mutation(None)
            },
            EditAction::TogglePreview => if self.active {
                self.asked(CmdView::TogglePause)
            } else if edit_fault(self.edit.clips, self.edit.infos) is Some
                || self.edit.clips.len() == 0 {
                self
            } else {
                AppView {
                    active: true,
                    ..self.asked(
                        CmdView::Preview { uri: uri_of(self.edit), seek: PreviewSeek::From(0) },
                    )
                }
            },
            EditAction::PreviewFromSelected => match self.selected_clip {
                None => self,
                Some(i) => if edit_fault(self.edit.clips, self.edit.infos) is Some || i
                    >= outputs_of(self.edit).len() {
                    self
                } else {
                    AppView {
                        active: true,
                        ..self.asked(
                            CmdView::Preview {
                                uri: uri_of(self.edit),
                                seek: PreviewSeek::From(outputs_of(self.edit)[i as int].0 as i128),
                            },
                        )
                    }
                },
            },
            EditAction::Save => AppView { edit: self.edit.pruned(), save_due: true, ..self },
        }
    }

    /// Whether `end` is what a key of the search pane makes of this: one that
    /// is not an action edits the query line.
    pub open spec fn search_keyed(self, key: Key, end: AppView) -> bool {
        match key.code {
            KeyCode::Up => end == self.selection_moved((-1) as isize),
            KeyCode::Down => end == self.selection_moved(1),
            KeyCode::PageUp => end == self.selection_moved((-PAGE) as isize),
            KeyCode::PageDown => end == self.selection_moved(PAGE),
            KeyCode::Enter => end == self.auditioned(AuditionKind::LoopExact),
            _ => if key.code == KeyCode::Char('t') && key.has_control() {
                end == self.auditioned(AuditionKind::Context)
            } else if key.code == KeyCode::Char('u') && key.has_control() {
                end == self.auditioned(AuditionKind::FullUtterance)
            } else {
                self.line_edited(key, end)
            },
        }
    }

    /// Whether `end` is what editing the query line with a key makes of this:
    /// an edited text is searched, a moved cursor is not.
    pub open spec fn line_edited(self, key: Key, end: AppView) -> bool {
        let s = self.with_line(end.line());
        exists|changed: bool| #[trigger]
            line_edit(
                self.line(),
                stops(self.line()),
                line_key_of(key.code),
                key.modifiers,
                changed,
                end.line(),
            ) && end == if changed {
                s.searched()
            } else {
                s
            }
    }

    /// The query line.
    pub open spec fn line(self) -> LineView {
        LineView { text: self.text, cursor: self.cursor, cut: self.cut, cutting: self.cutting }
    }

    /// With another query line.
    pub open spec fn with_line(self, line: LineView) -> AppView {
        AppView {
            text: line.text,
            cursor: line.cursor,
            cut: line.cut,
            cutting: line.cutting,
            ..self
        }
    }

    /// Whether `end` is what a key makes of this.
    pub open spec fn keyed(self, key: Key, end: AppView) -> bool {
        if key.code == KeyCode::Esc || (key.code == KeyCode::Char('c') && key.has_control()) {
            end == AppView { quit: true, ..self }
        } else if key.code == KeyCode::Tab {
            end == AppView {
                focus: if self.focus == Pane::Search {
                    Pane::Edit
                } else {
                    Pane::Search
                },
                ..self
            }
        } else if key.code == KeyCode::Char('a') && key.has_control() {
            end == self.hit_appended()
        } else if key.code == KeyCode::Char('p') && key.has_control() {
            end == self.asked(CmdView::Stop)
        } else {
            match self.focus {
                Pane::Search => self.search_keyed(key, end),
                Pane::Edit => end == self.edited(edit_action_of(key)),
            }
        }
    }

    /// Whether `end` is what an event makes of this.
    pub open spec fn updated(self, event: Event, end: AppView) -> bool {
        match event {
            Event::Term(TermEvent::Key { key, released }) => if released {
                end == self
            } else {
                self.keyed(key, end)
            },
            Event::Term(TermEvent::Other) => end == self,
            Event::SearchDone { generation, result } => if generation != self.generation {
                end == self
            } else {
                match result {
                    Ok(hits) => end == AppView {
                        searching: false,
                        hits: hits@,
                        ..self
                    }.selecting(0),
                    Err(message) => end == AppView {
                        searching: false,
                        note: Some(message@),
                        ..self
                    },
                }
            },
            Event::Player(update) => end == AppView { player_state: Some(update@), ..self },
        }
    }
}

// ------------------------------------------------------------------------ laws

/// A result of an older query revision changes nothing.
pub proof fn law_stale_results_are_dropped(s: AppView, event: Event, end: AppView)
    requires
        event matches Event::SearchDone { generation, .. } && generation != s.generation,
        s.updated(event, end),
    ensures
        end == s,
{
}

/// Where search results are proper, every event finds what it plays or appends,
/// and the results stay proper.
#[verifier::rlimit(40)]
#[verifier::spinoff_prover]
pub proof fn law_proper_results_are_playable(s: AppView, event: Event, end: AppView)
    requires
        hits_proper(s.hits),
        event.wf(),
        s.updated(event, end),
    ensures
        s.ready_for(event),
        hits_proper(end.hits),
{
    if let Some(hit) = s.chosen() {
        assert(s.hits[s.selected->0 as int].wf());
        let m = hit.matches@[0];
        assert(m.start < m.end);
        lemma_after_mutation(
            AppView {
                edit: s.edit.appended(clip_of(hit), hit.source@),
                selected_clip: Some(s.edit.clips.len() as usize),
                ..s
            },
            None,
        );
    }
    if let Event::Term(TermEvent::Key { key, .. }) = event {
        lemma_edits_keep_hits(s, edit_action_of(key));
        if s.line_edited(key, end) {
            lemma_line_edits_keep(s, key, end);
        }
    }
}

#[verifier::spinoff_prover]
#[verifier::rlimit(50)]
proof fn lemma_edits_keep_hits(s: AppView, action: EditAction)
    ensures
        s.edited(action).hits == s.hits,
{
    reveal(AppView::after_mutation);
}

/// A query revision is a new one exactly when it is searched or cleared, and
/// the request carries it: results of every earlier request are then stale.
pub proof fn law_requests_carry_their_revision(s: AppView)
    ensures
        s.searched().generation == s.generation + 1,
        s.searched().requests != s.requests ==> s.searched().requests->0.last().generation
            == s.searched().generation,
{
    if s.requests is Some {
        let queue = s.requests->0;
        let added = RequestView { generation: s.generation + 1, query: trimmed_text(s.text) };
        assert(queue.push(added).last() == added);
    }
}

/// Every change of the clips leaves the edit dirty and due for autosave.
pub proof fn law_mutations_autosave(s: AppView, action: EditAction)
    requires
        s.edited(action).edit.clips != s.edit.clips,
    ensures
        s.edited(action).autosave_due,
        s.edited(action).edit.dirty,
{
    let i = s.selected_clip->0;
    match action {
        EditAction::MoveClip(delta) => {
            let to = s.edit.shift_target(i as int, delta as int);
            if s.selected_clip is Some && to is Some {
                let edit = s.edit.mutated(s.edit.exchanged(i as int, to->0));
                lemma_after_mutation(
                    AppView { edit, selected_clip: Some(to->0 as usize), ..s },
                    None,
                );
            }
        },
        EditAction::Remove => {
            if s.selected_clip is Some && i < s.edit.clips.len() {
                let edit = s.edit.mutated(s.edit.clips.remove(i as int));
                lemma_after_mutation(AppView { edit, ..s }.selecting_clip(i), None);
            }
        },
        EditAction::Trim(edge, delta) => {
            let clip = s.edit.trim_result(i as int, edge, delta as int);
            if s.selected_clip is Some && clip is Some {
                let edit = s.edit.mutated(s.edit.clips.update(i as int, clip->0));
                lemma_after_mutation(AppView { edit, ..s }, Some(i));
            }
        },
        EditAction::Undo => {
            lemma_after_mutation(
                AppView { edit: s.edit.undone(), ..s }.reselecting_clip(),
                None,
            );
        },
        EditAction::Redo => {
            lemma_after_mutation(
                AppView { edit: s.edit.redone(), ..s }.reselecting_clip(),
                None,
            );
        },
        _ => {},
    }
}

proof fn lemma_after_mutation(s: AppView, replay: Option<usize>)
    ensures
        s.after_mutation(replay).edit == s.edit,
        s.after_mutation(replay).autosave_due,
        s.after_mutation(replay).hits == s.hits,
        s.after_mutation(replay).selected == s.selected,
        s.after_mutation(replay).selected_clip == s.selected_clip,
{
    reveal(AppView::after_mutation);
}

/// The selections point into their lists, whatever happens.
pub proof fn law_selections_stay_in_range(s: AppView, event: Event, end: AppView)
    requires
        s.in_range(),
        s.updated(event, end),
        s.hits.len() <= usize::MAX && s.edit.clips.len() <= usize::MAX,
        s.edit.undo.len() > 0 ==> s.edit.undo.last().len() <= usize::MAX,
        s.edit.redo.len() > 0 ==> s.edit.redo.last().len() <= usize::MAX,
    ensures
        end.in_range(),
{
    match event {
        Event::Term(TermEvent::Key { key, released }) => {
            if !released {
                lemma_keys_stay_in_range(s, key, end);
            }
        },
        Event::SearchDone { result: Ok(hits), .. } => {
            assert(hits@.len() == hits.len());
        },
        _ => {},
    }
}

#[verifier::rlimit(40)]
#[verifier::spinoff_prover]
proof fn lemma_keys_stay_in_range(s: AppView, key: Key, end: AppView)
    requires
        s.in_range(),
        s.keyed(key, end),
        s.hits.len() <= usize::MAX && s.edit.clips.len() <= usize::MAX,
        s.edit.undo.len() > 0 ==> s.edit.undo.last().len() <= usize::MAX,
        s.edit.redo.len() > 0 ==> s.edit.redo.last().len() <= usize::MAX,
    ensures
        end.in_range(),
{
    if s.chosen() is Some {
        let hit = s.chosen()->0;
        let edit = s.edit.appended(clip_of(hit), hit.source@);
        lemma_after_mutation(
            AppView { edit, selected_clip: Some(s.edit.clips.len() as usize), ..s },
            None,
        );
    }
    lemma_edits_stay_in_range(s, edit_action_of(key));
    if s.line_edited(key, end) {
        lemma_line_edits_keep(s, key, end);
    }
}

/// Editing the query line leaves the edit alone, and the hits unless they are
/// cleared.
proof fn lemma_line_edits_keep(s: AppView, key: Key, end: AppView)
    requires
        s.line_edited(key, end),
    ensures
        end.edit == s.edit,
        end.selected_clip == s.selected_clip,
        (end.hits == s.hits && end.selected == s.selected) || (end.hits.len() == 0 && end.selected
            is None),
{
}

proof fn lemma_edits_stay_in_range(s: AppView, action: EditAction)
    requires
        s.in_range(),
        s.edit.clips.len() <= usize::MAX,
        s.edit.undo.len() > 0 ==> s.edit.undo.last().len() <= usize::MAX,
        s.edit.redo.len() > 0 ==> s.edit.redo.last().len() <= usize::MAX,
    ensures
        s.edited(action).in_range(),
{
    let i = s.selected_clip->0;
    match action {
        EditAction::MoveClip(delta) => {
            let to = s.edit.shift_target(i as int, delta as int);
            if s.selected_clip is Some && to is Some {
                let edit = s.edit.mutated(s.edit.exchanged(i as int, to->0));
                lemma_after_mutation(
                    AppView { edit, selected_clip: Some(to->0 as usize), ..s },
                    None,
                );
            }
        },
        EditAction::Remove => {
            if s.selected_clip is Some && i < s.edit.clips.len() {
                let edit = s.edit.mutated(s.edit.clips.remove(i as int));
                lemma_after_mutation(AppView { edit, ..s }.selecting_clip(i), None);
            }
        },
        EditAction::Trim(edge, delta) => {
            let clip = s.edit.trim_result(i as int, edge, delta as int);
            if s.selected_clip is Some && clip is Some {
                let edit = s.edit.mutated(s.edit.clips.update(i as int, clip->0));
                lemma_after_mutation(AppView { edit, ..s }, Some(i));
            }
        },
        EditAction::Undo => {
            lemma_after_mutation(
                AppView { edit: s.edit.undone(), ..s }.reselecting_clip(),
                None,
            );
        },
        EditAction::Redo => {
            lemma_after_mutation(
                AppView { edit: s.edit.redone(), ..s }.reselecting_clip(),
                None,
            );
        },
        _ => {},
    }
}

/// Whatever happens, the manifest has an entry for the source of every clip, so
/// that what the next autosave or save writes can be loaded again.
#[verifier::rlimit(40)]
#[verifier::spinoff_prover]
pub proof fn law_edits_stay_self_describing(s: AppView, event: Event, end: AppView)
    requires
        s.edit.wf(),
        s.updated(event, end),
    ensures
        end.edit.wf(),
{
    match event {
        Event::Term(TermEvent::Key { key, .. }) => {
            if s.chosen() is Some {
                let hit = s.chosen()->0;
                let edit = s.edit.appended(clip_of(hit), hit.source@);
                law_every_clip_keeps_its_entry(s.edit, clip_of(hit), hit.source@, s.edit.clips);
                lemma_after_mutation(
                    AppView { edit, selected_clip: Some(s.edit.clips.len() as usize), ..s },
                    None,
                );
            }
            lemma_actions_stay_self_describing(s, edit_action_of(key));
            if s.line_edited(key, end) {
                lemma_line_edits_keep(s, key, end);
            }
        },
        _ => {},
    }
}

proof fn lemma_actions_stay_self_describing(s: AppView, action: EditAction)
    requires
        s.edit.wf(),
    ensures
        s.edited(action).edit.wf(),
{
    let i = s.selected_clip->0;
    lemma_wf_kept(s.edit);
    match action {
        EditAction::MoveClip(delta) => {
            let to = s.edit.shift_target(i as int, delta as int);
            if s.selected_clip is Some && to is Some {
                let edit = s.edit.mutated(s.edit.exchanged(i as int, to->0));
                law_edits_keep_to_the_manifest(s.edit, i as int, to->0, Edge::Start, 0);
                lemma_after_mutation(
                    AppView { edit, selected_clip: Some(to->0 as usize), ..s },
                    None,
                );
            }
        },
        EditAction::Remove => {
            if s.selected_clip is Some && i < s.edit.clips.len() {
                let edit = s.edit.mutated(s.edit.clips.remove(i as int));
                law_edits_keep_to_the_manifest(s.edit, i as int, i as int, Edge::Start, 0);
                lemma_after_mutation(AppView { edit, ..s }.selecting_clip(i), None);
            }
        },
        EditAction::Trim(edge, delta) => {
            let clip = s.edit.trim_result(i as int, edge, delta as int);
            if s.selected_clip is Some && clip is Some {
                let edit = s.edit.mutated(s.edit.clips.update(i as int, clip->0));
                law_edits_keep_to_the_manifest(s.edit, i as int, i as int, edge, delta as int);
                lemma_after_mutation(AppView { edit, ..s }, Some(i));
            }
        },
        EditAction::Undo => {
            lemma_after_mutation(
                AppView { edit: s.edit.undone(), ..s }.reselecting_clip(),
                None,
            );
        },
        EditAction::Redo => {
            lemma_after_mutation(
                AppView { edit: s.edit.redone(), ..s }.reselecting_clip(),
                None,
            );
        },
        _ => {},
    }
}

/// A rejected trim changes nothing at all.
pub proof fn law_rejected_trims_change_nothing(s: AppView, i: usize, edge: Edge, delta: i64)
    requires
        s.selected_clip == Some(i),
        s.edit.trim_result(i as int, edge, delta as int) is None,
    ensures
        s.edited(EditAction::Trim(edge, delta)) == s,
{
}

/// An audition leaves the edit alone and takes the preview off the player.
pub proof fn law_auditions_leave_the_edit(s: AppView, kind: AuditionKind)
    ensures
        s.auditioned(kind).edit == s.edit,
        s.chosen() is Some ==> !s.auditioned(kind).active,
{
}

// ---------------------------------------------------------------------- machine

proof fn lemma_total_is_positive(segments: Seq<SegmentView>)
    requires
        crate::edl::compile::segments_proper(segments),
    ensures
        total(segments) >= 0,
    decreases segments.len(),
{
    if segments.len() > 0 {
        let head = segments.drop_last();
        assert forall|i: int| #![trigger head[i]] 0 <= i < head.len() implies 0 <= head[i].t_start
            <= head[i].t_end by {
            assert(head[i] == segments[i]);
        }
        assert(crate::edl::compile::segments_proper(head));
        lemma_total_is_positive(head);
        assert(segments.last() == segments[segments.len() - 1]);
    }
}

/// What a key does in the edit pane.
pub fn edit_action(key: Key) -> (a: EditAction)
    ensures
        a == edit_action_of(key),
{
    match key.code {
        KeyCode::Up => if key.shift() {
            EditAction::MoveClip(-1)
        } else {
            EditAction::MoveSelection(-1)
        },
        KeyCode::Down => if key.shift() {
            EditAction::MoveClip(1)
        } else {
            EditAction::MoveSelection(1)
        },
        KeyCode::PageUp => EditAction::MoveSelection(-PAGE),
        KeyCode::PageDown => EditAction::MoveSelection(PAGE),
        KeyCode::Delete => EditAction::Remove,
        KeyCode::Backspace => EditAction::Remove,
        KeyCode::Enter => EditAction::PreviewFromSelected,
        KeyCode::Char(c) => match c {
            'K' => EditAction::MoveClip(-1),
            'J' => EditAction::MoveClip(1),
            'd' => EditAction::Remove,
            'u' => EditAction::Undo,
            'U' => EditAction::Redo,
            ',' => EditAction::Trim(Edge::Start, -NUDGE_FINE),
            '.' => EditAction::Trim(Edge::Start, NUDGE_FINE),
            '<' => EditAction::Trim(Edge::Start, -NUDGE_COARSE),
            '>' => EditAction::Trim(Edge::Start, NUDGE_COARSE),
            '[' => EditAction::Trim(Edge::End, -NUDGE_FINE),
            ']' => EditAction::Trim(Edge::End, NUDGE_FINE),
            '{' => EditAction::Trim(Edge::End, -NUDGE_COARSE),
            '}' => EditAction::Trim(Edge::End, NUDGE_COARSE),
            ' ' => EditAction::TogglePreview,
            's' => EditAction::Save,
            _ => if c == 'r' && key.ctrl() {
                EditAction::Redo
            } else {
                EditAction::Nothing
            },
        },
        _ => EditAction::Nothing,
    }
}

fn clamp_to(i: usize, len: usize) -> (r: Option<usize>)
    ensures
        r == clamped_to(i, len as nat),
{
    if len == 0 {
        None
    } else if i >= len {
        Some(len - 1)
    } else {
        Some(i)
    }
}

fn move_to(selected: Option<usize>, delta: isize, len: usize) -> (r: usize)
    requires
        len > 0,
    ensures
        r == moved_to(selected, delta, len as nat),
{
    let current: usize = match selected {
        Some(i) => i,
        None => 0,
    };
    let to: i128 = current as i128 + delta as i128;
    if to < 0 {
        0
    } else if to >= len as i128 {
        len - 1
    } else {
        to as usize
    }
}

fn clone_text(s: &String) -> (r: String)
    ensures
        r@ == s@,
{
    s.as_str().to_owned()
}

/// The words of a hit's first match, joined.
pub fn phrase(hit: &SearchHit) -> (s: String)
    requires
        playable(*hit),
    ensures
        s@ == phrase_of(*hit),
{
    let start: usize = hit.matches[0].start;
    let end: usize = hit.matches[0].end;
    let ghost m = hit.matches@[0];
    let ghost all = word_texts(hit.words@);
    let mut words: Vec<String> = Vec::new();
    let mut i: usize = start;
    assert(texts(words@) =~= all.subrange(start as int, start as int));
    while i < end
        invariant
            start <= i <= end,
            end <= hit.words@.len(),
            all == word_texts(hit.words@),
            texts(words@) == all.subrange(start as int, i as int),
        decreases end - i,
    {
        let ghost before = texts(words@);
        words.push(hit.words[i].text.as_str().to_owned());
        assert(texts(words@) =~= before.push(all[i as int]));
        assert(all.subrange(start as int, i + 1) =~= all.subrange(start as int, i as int).push(
            all[i as int],
        ));
        i = i + 1;
    }
    join(&words, " ")
}

/// The audition of a hit's first match.
pub fn audition(hit: &SearchHit, kind: AuditionKind) -> (a: Audition)
    requires
        playable(*hit),
    ensures
        super::player::PlayerCmd::Audition(a)@ == audition_of(*hit, kind),
{
    let ghost m = hit.matches@[0];
    let (start, end): (i64, i64) = hit.match_span(&hit.matches[0]);
    let master_path: String = clone_text(&hit.source.master_path);
    match kind {
        AuditionKind::LoopExact => Audition {
            master_path,
            start: start as i128,
            end: end as i128,
            looped: true,
            label: phrase(hit),
        },
        AuditionKind::Context => Audition {
            master_path,
            start: if (start as i128) < CONTEXT_PAD {
                0
            } else {
                start as i128 - CONTEXT_PAD
            },
            end: end as i128 + CONTEXT_PAD,
            looped: false,
            label: phrase(hit),
        },
        AuditionKind::FullUtterance => Audition {
            master_path,
            start: hit.t_start as i128,
            end: hit.t_end as i128,
            looped: false,
            label: clone_text(&hit.text),
        },
    }
}

/// The clip of a hit's first match.
pub fn clip(hit: &SearchHit) -> (c: Clip)
    requires
        playable(*hit),
    ensures
        c@ == clip_of(*hit),
{
    let ghost m = hit.matches@[0];
    let (t_start, t_end): (i64, i64) = hit.match_span(&hit.matches[0]);
    let c = Clip {
        span: Span {
            source: hit.source.id,
            t_start: Real::Nano(t_start),
            t_end: Real::Nano(t_end),
            channel: Channel::Both,
        },
        transforms: Vec::new(),
        provenance: Some(ProvenanceRef::Utterance(hit.utterance_id)),
        label: Some(phrase(hit)),
    };
    assert(c@ =~= clip_of(*hit));
    c
}

/// The startup notes with what a recovered edit and a missing corpus add.
pub open spec fn all_notes(
    notes: Seq<Seq<char>>,
    edit: SessionView,
    problem: Option<Seq<char>>,
) -> Seq<Seq<char>> {
    let with_recovery = if edit.recovered {
        notes.push(
            "recovered unsaved work from "@ + edit.path
                + ".autosave — press s in the edit pane to commit"@,
        )
    } else {
        notes
    };
    match problem {
        Some(message) => with_recovery.push(message),
        None => with_recovery,
    }
}

/// The application at startup.
pub open spec fn started(
    corpus_db: Seq<char>,
    requests: Option<Seq<RequestView>>,
    commands: Seq<CmdView>,
    edit: SessionView,
    notes: Seq<Seq<char>>,
) -> AppView {
    AppView {
        corpus_db,
        text: Seq::empty(),
        cursor: 0,
        cut: Seq::empty(),
        cutting: false,
        hits: Seq::empty(),
        selected: None,
        generation: 0,
        searching: false,
        note: if notes.len() == 0 {
            None
        } else {
            Some(joined(notes, "; "@))
        },
        player_state: None,
        quit: false,
        focus: Pane::Search,
        edit,
        selected_clip: None,
        autosave_due: false,
        save_due: false,
        requests,
        commands,
        active: false,
    }.recompiled().selecting_clip(0)
}

/// The columns within a pane's border.
pub open spec fn inner_width(width: u16) -> int {
    if width >= 2 {
        width - 2
    } else {
        0
    }
}

/// How a line shows in a pane of `width` columns, with the cursor `columns`
/// columns into the text and `scroll` of them scrolled off: the cursor stands
/// within the border, and only while the pane has the keyboard.
pub open spec fn input_pane(columns: nat, scroll: nat, width: u16, focus: Pane) -> InputPane {
    let x = if columns >= scroll {
        (columns - scroll) as u16
    } else {
        0
    };
    InputPane {
        scroll: scroll as u16,
        cursor: if focus == Pane::Search {
            Some((1 + if x < inner_width(width) { x as int } else { inner_width(width) }) as u16)
        } else {
            None
        },
    }
}

/// How a line shows in a pane.
pub fn place_input(columns: usize, scroll: usize, width: u16, focus: Pane) -> (pane: InputPane)
    ensures
        pane == input_pane(columns as nat, scroll as nat, width, focus),
{
    let inner: u16 = width.saturating_sub(2);
    let x: u16 = columns.saturating_sub(scroll) as u16;
    let cursor: Option<u16> = match focus {
        Pane::Search => Some(
            1 + if x < inner {
                x
            } else {
                inner
            },
        ),
        Pane::Edit => None,
    };
    InputPane { scroll: scroll as u16, cursor }
}

impl App {
    /// The compiled preview is the one of the edit, and the cursor is within the
    /// query.
    pub open spec fn wf(&self) -> bool {
        self.has_cursor() && self.is_compiled()
    }

    /// The plan and the URI are the ones of the edit.
    pub open spec fn is_compiled(&self) -> bool {
        self.is_planned() && self.has_uri()
    }

    /// The cursor is within the query.
    pub open spec fn has_cursor(&self) -> bool {
        line_cursor(self.input) <= line_text(self.input).len()
    }

    /// The plan is the one of the edit, where that compiles.
    pub open spec fn is_planned(&self) -> bool {
        if edit_fault(self.edit@.clips, self.edit@.infos) is Some {
            self.plan is None
        } else {
            self.plan is Some && compiled(self.plan->0, self.edit@)
        }
    }

    /// The URI is the one of the edit, where that compiles.
    pub open spec fn has_uri(&self) -> bool {
        if edit_fault(self.edit@.clips, self.edit@.infos) is Some {
            self.preview_uri is None
        } else {
            self.preview_uri is Some && self.preview_uri->0@ == uri_of(self.edit@)
        }
    }

    /// The application at startup. Without a corpus the problem is told
    /// instead.
    pub fn new(
        corpus_db: String,
        db: Result<DbHandle, String>,
        player: PlayerHandle,
        edit: EditSession,
        startup_notes: Vec<String>,
    ) -> (app: App)
        ensures
            app.wf(),
            app@ == started(
                corpus_db@,
                match db {
                    Ok(h) => Some(request_views(h.queue@)),
                    Err(_) => None,
                },
                cmd_views(player.queue@),
                edit@,
                all_notes(
                    texts(startup_notes@),
                    edit@,
                    match db {
                        Ok(_) => None,
                        Err(message) => Some(message@),
                    },
                ),
            ),
    {
        let ghost given = texts(startup_notes@);
        let mut notes: Vec<String> = startup_notes;
        if edit.recovered() {
            let mut s: String = "recovered unsaved work from ".to_owned();
            s.append(edit.path());
            s.append(".autosave — press s in the edit pane to commit");
            let ghost added = s@;
            notes.push(s);
            assert(texts(notes@) =~= given.push(added));
        }
        let ghost so_far = texts(notes@);
        let handle: Option<DbHandle> = match db {
            Ok(handle) => Some(handle),
            Err(message) => {
                let ghost added = message@;
                notes.push(message);
                assert(texts(notes@) =~= so_far.push(added));
                None
            },
        };
        let note: Option<String> = if notes.len() == 0 {
            None
        } else {
            Some(join(&notes, "; "))
        };
        let mut app = App {
            corpus_db,
            input: new_line(),
            hits: Vec::new(),
            selected: None,
            generation: 0,
            searching: false,
            note,
            player_state: None,
            quit: false,
            focus: Pane::Search,
            edit,
            selected_clip: None,
            plan: None,
            autosave_due: false,
            save_due: false,
            db: handle,
            player,
            preview_uri: None,
            preview_active: false,
        };
        app.recompile();
        app.select_clip(0);
        assert(app@.text =~= Seq::empty());
        assert(app@.hits =~= Seq::empty());
        app
    }

    /// Compiles the edit anew.
    fn recompile(&mut self)
        ensures
            final(self)@ == old(self)@.recompiled(),
            final(self).is_compiled(),
            final(self).input == old(self).input,
            final(self).hits == old(self).hits,
    {
        match self.edit.compile() {
            Ok((plan, mpv)) => {
                self.preview_uri = Some(mpv.uri());
                self.plan = Some(plan);
            },
            Err(e) => {
                self.note = Some(e.message());
                self.plan = None;
                self.preview_uri = None;
            },
        }
    }

    fn select(&mut self, index: usize)
        ensures
            final(self)@ == old(self)@.selecting(index),
            final(self).input == old(self).input,
            old(self).is_compiled() ==> final(self).is_compiled(),
    {
        self.selected = clamp_to(index, self.hits.len());
    }

    fn select_clip(&mut self, index: usize)
        ensures
            final(self)@ == old(self)@.selecting_clip(index),
            final(self).input == old(self).input,
            old(self).is_compiled() ==> final(self).is_compiled(),
    {
        let clips: usize = self.edit.clips().len();
        assert(clips == self.edit@.clips.len());
        self.selected_clip = clamp_to(index, clips);
    }

    fn clamp_clip_selection(&mut self)
        ensures
            final(self)@ == old(self)@.reselecting_clip(),
            final(self).input == old(self).input,
            old(self).is_compiled() ==> final(self).is_compiled(),
    {
        let index: usize = match self.selected_clip {
            Some(i) => i,
            None => 0,
        };
        self.select_clip(index);
    }

    /// Every change of the edit ends here.
    fn after_mutation(&mut self, replay: Option<usize>)
        ensures
            final(self)@ == old(self)@.after_mutation(replay),
            final(self).is_compiled(),
            final(self).input == old(self).input,
            final(self).hits == old(self).hits,
    {
        reveal(AppView::after_mutation);
        let ghost before = self@;
        self.autosave_due = true;
        self.recompile();
        let plan: &PreviewPlan = match &self.plan {
            Some(plan) => plan,
            None => {
                return;
            },
        };
        let uri: String = match &self.preview_uri {
            Some(uri) => clone_text(uri),
            None => {
                return;
            },
        };
        proof {
            lemma_total_is_positive(segment_views(plan.segments@));
            assert(interval_views(plan.clip_output@) == outputs_of(self.edit@));
            assert(interval_views(plan.clip_output@).len() == plan.clip_output@.len());
        }
        let clips: usize = self.edit.clips().len();
        assert(clips == self.edit@.clips.len());
        if clips == 0 {
            if self.preview_active {
                self.player.stop();
                self.preview_active = false;
            }
            return;
        }
        match replay {
            Some(i) => {
                if i >= plan.clip_output.len() {
                    return;
                }
                let (out_start, out_end): (i128, i128) = plan.clip_output[i];
                assert(interval_views(plan.clip_output@)[i as int] == (
                    out_start as int,
                    out_end as int,
                ));
                let length: i128 = plan.total_duration;
                let start: i128 = if out_start < REPLAY_PAD {
                    0
                } else {
                    out_start - REPLAY_PAD
                };
                let end: i128 = if out_end > length - REPLAY_PAD {
                    length
                } else {
                    out_end + REPLAY_PAD
                };
                self.player.preview(Preview { uri, seek: PreviewSeek::Window { start, end } });
                self.preview_active = true;
            },
            None => {
                if self.preview_active {
                    let max: i128 = plan.total_duration;
                    self.player.preview(Preview { uri, seek: PreviewSeek::Resume { max } });
                }
            },
        }
        assert(self@ =~= before.after_mutation(replay));
    }

    fn issue_search(&mut self)
        requires
            old(self).wf(),
            old(self)@.generation < u64::MAX,
        ensures
            final(self).wf(),
            final(self)@ == old(self)@.searched(),
    {
        let ghost before = self@;
        self.generation = self.generation + 1;
        let text: Vec<char> = chars_of(self.input.value());
        let trimmed: Vec<char> = trim(&text);
        if trimmed.len() == 0 {
            self.hits.clear();
            self.searching = false;
            self.select(0);
            assert(self@ =~= before.searched());
            return;
        }
        let query: String = string_of(trimmed.as_slice(), 0, trimmed.len());
        assert(query@ =~= trimmed@);
        match self.db.take() {
            Some(handle) => {
                let mut handle: DbHandle = handle;
                handle.request(self.generation, query);
                self.db = Some(handle);
                self.searching = true;
            },
            None => {},
        }
    }

    /// Sends the chosen hit to the player.
    fn audition(&mut self, kind: AuditionKind)
        requires
            old(self).wf(),
            old(self)@.chosen() matches Some(hit) ==> playable(hit),
        ensures
            final(self).wf(),
            final(self)@ == old(self)@.auditioned(kind),
    {
        let index: usize = match self.selected {
            Some(i) => i,
            None => {
                return;
            },
        };
        if index >= self.hits.len() || self.hits[index].matches.len() == 0 {
            return;
        }
        let request: Audition = audition(&self.hits[index], kind);
        self.player.audition(request);
        self.preview_active = false;
    }

    /// Appends the chosen hit's matched span to the edit as a clip.
    fn append_hit(&mut self)
        requires
            old(self).wf(),
            old(self)@.chosen() matches Some(hit) ==> playable(hit),
        ensures
            final(self).wf(),
            final(self)@ == old(self)@.hit_appended(),
    {
        let ghost before = self@;
        let index: usize = match self.selected {
            Some(i) => i,
            None => {
                return;
            },
        };
        if index >= self.hits.len() || self.hits[index].matches.len() == 0 {
            return;
        }
        let added: Clip = clip(&self.hits[index]);
        self.edit.append(added, &self.hits[index].source);
        let clips: usize = self.edit.clips().len();
        assert(clips == self.edit@.clips.len());
        self.selected_clip = Some(clips - 1);
        self.after_mutation(None);
    }

    fn move_selection(&mut self, delta: isize)
        requires
            old(self).wf(),
        ensures
            final(self).wf(),
            final(self)@ == old(self)@.selection_moved(delta),
    {
        if self.hits.len() == 0 {
            return;
        }
        let to: usize = move_to(self.selected, delta, self.hits.len());
        self.select(to);
    }

    /// Removes the selected clip.
    fn remove_clip(&mut self)
        requires
            old(self).wf(),
        ensures
            final(self).wf(),
            final(self)@ == old(self)@.edited(EditAction::Remove),
    {
        let i: usize = match self.selected_clip {
            Some(i) => i,
            None => {
                return;
            },
        };
        if self.edit.remove(i) {
            self.select_clip(i);
            self.after_mutation(None);
        }
    }

    /// Moves the selected clip; the selection follows.
    fn move_clip(&mut self, delta: isize)
        requires
            old(self).wf(),
        ensures
            final(self).wf(),
            final(self)@ == old(self)@.edited(EditAction::MoveClip(delta)),
    {
        let i: usize = match self.selected_clip {
            Some(i) => i,
            None => {
                return;
            },
        };
        if let Some(to) = self.edit.shift(i, delta) {
            self.selected_clip = Some(to);
            self.after_mutation(None);
        }
    }

    /// Nudges an edge of the selected clip.
    fn trim_clip(&mut self, edge: Edge, delta: i64)
        requires
            old(self).wf(),
        ensures
            final(self).wf(),
            final(self)@ == old(self)@.edited(EditAction::Trim(edge, delta)),
    {
        let i: usize = match self.selected_clip {
            Some(i) => i,
            None => {
                return;
            },
        };
        if self.edit.trim(i, edge, delta) {
            self.after_mutation(Some(i));
        }
    }

    /// Takes the last change back.
    fn undo(&mut self)
        requires
            old(self).wf(),
        ensures
            final(self).wf(),
            final(self)@ == old(self)@.edited(EditAction::Undo),
    {
        if self.edit.undo() {
            self.clamp_clip_selection();
            self.after_mutation(None);
        }
    }

    /// Takes the last undo back.
    fn redo(&mut self)
        requires
            old(self).wf(),
        ensures
            final(self).wf(),
            final(self)@ == old(self)@.edited(EditAction::Redo),
    {
        if self.edit.redo() {
            self.clamp_clip_selection();
            self.after_mutation(None);
        }
    }

    /// Performs an action of the edit pane.
    fn edit_keyed(&mut self, action: EditAction)
        requires
            old(self).wf(),
        ensures
            final(self).wf(),
            final(self)@ == old(self)@.edited(action),
    {
        match action {
            EditAction::Nothing => {},
            EditAction::MoveSelection(delta) => {
                let clips: usize = self.edit.clips().len();
                assert(clips == self.edit@.clips.len());
                if clips > 0 {
                    let to: usize = move_to(self.selected_clip, delta, clips);
                    self.select_clip(to);
                }
            },
            EditAction::MoveClip(delta) => self.move_clip(delta),
            EditAction::Remove => self.remove_clip(),
            EditAction::Trim(edge, delta) => self.trim_clip(edge, delta),
            EditAction::Undo => self.undo(),
            EditAction::Redo => self.redo(),
            EditAction::TogglePreview => self.toggle_preview(),
            EditAction::PreviewFromSelected => self.preview_from_selected(),
            EditAction::Save => {
                self.edit.prune();
                self.save_due = true;
            },
        }
    }

    /// Pauses or plays the preview, loading the timeline on first play.
    fn toggle_preview(&mut self)
        requires
            old(self).wf(),
        ensures
            final(self).wf(),
            final(self)@ == old(self)@.edited(EditAction::TogglePreview),
    {
        if self.preview_active {
            self.player.toggle_pause();
            return;
        }
        let clips: usize = self.edit.clips().len();
        assert(clips == self.edit@.clips.len());
        let uri: String = match &self.preview_uri {
            Some(uri) => clone_text(uri),
            None => {
                return;
            },
        };
        if clips == 0 {
            return;
        }
        self.player.preview(Preview { uri, seek: PreviewSeek::From(0) });
        self.preview_active = true;
    }

    /// Plays the preview from the selected clip's output position.
    fn preview_from_selected(&mut self)
        requires
            old(self).wf(),
        ensures
            final(self).wf(),
            final(self)@ == old(self)@.edited(EditAction::PreviewFromSelected),
    {
        let i: usize = match self.selected_clip {
            Some(i) => i,
            None => {
                return;
            },
        };
        let uri: String = match &self.preview_uri {
            Some(uri) => clone_text(uri),
            None => {
                return;
            },
        };
        let start: i128 = match &self.plan {
            Some(plan) => {
                assert(interval_views(plan.clip_output@) == outputs_of(self.edit@));
                assert(interval_views(plan.clip_output@).len() == plan.clip_output@.len());
                if i >= plan.clip_output.len() {
                    return;
                }
                let (start, end): (i128, i128) = plan.clip_output[i];
                assert(interval_views(plan.clip_output@)[i as int] == (start as int, end as int));
                start
            },
            None => {
                return;
            },
        };
        self.player.preview(Preview { uri, seek: PreviewSeek::From(start) });
        self.preview_active = true;
    }

    fn on_search_key(&mut self, key: Key)
        requires
            old(self).wf(),
            old(self)@.focus == Pane::Search,
            old(self)@.ready_for(Event::Term(TermEvent::Key { key, released: false })),
            old(self)@.generation < u64::MAX,
        ensures
            final(self).wf(),
            old(self)@.search_keyed(key, final(self)@),
    {
        let ghost before = self@;
        match key.code {
            KeyCode::Up => self.move_selection(-1),
            KeyCode::Down => self.move_selection(1),
            KeyCode::PageUp => self.move_selection(-PAGE),
            KeyCode::PageDown => self.move_selection(PAGE),
            KeyCode::Enter => self.audition(AuditionKind::LoopExact),
            _ => {
                if key.code == KeyCode::Char('t') && key.ctrl() {
                    self.audition(AuditionKind::Context);
                } else if key.code == KeyCode::Char('u') && key.ctrl() {
                    self.audition(AuditionKind::FullUtterance);
                } else {
                    let changed: bool = press(&mut self.input, line_key(key.code), key.modifiers);
                    proof {
                        law_cursor_stays_in_its_line(
                            before.line(),
                            stops(before.line()),
                            line_request(line_key_of(key.code), key.modifiers),
                        );
                        assert(self@ =~= before.with_line(self@.line()));
                        assert(line_edit(
                            before.line(),
                            stops(before.line()),
                            line_key_of(key.code),
                            key.modifiers,
                            changed,
                            self@.line(),
                        ));
                    }
                    if changed {
                        self.issue_search();
                    }
                }
            },
        }
    }

    fn on_key(&mut self, key: Key)
        requires
            old(self).wf(),
            old(self)@.ready_for(Event::Term(TermEvent::Key { key, released: false })),
            old(self)@.generation < u64::MAX,
        ensures
            final(self).wf(),
            old(self)@.keyed(key, final(self)@),
    {
        let ctrl: bool = key.ctrl();
        if key.code == KeyCode::Esc || (key.code == KeyCode::Char('c') && ctrl) {
            self.quit = true;
        } else if key.code == KeyCode::Tab {
            self.focus = match self.focus {
                Pane::Search => Pane::Edit,
                Pane::Edit => Pane::Search,
            };
        } else if key.code == KeyCode::Char('a') && ctrl {
            self.append_hit();
        } else if key.code == KeyCode::Char('p') && ctrl {
            self.player.stop();
        } else {
            match self.focus {
                Pane::Search => self.on_search_key(key),
                Pane::Edit => self.edit_keyed(edit_action(key)),
            }
        }
    }

    /// Takes an event.
    pub fn update(&mut self, event: Event)
        requires
            old(self).wf(),
            old(self)@.generation < u64::MAX,
            old(self)@.ready_for(event),
        ensures
            final(self).wf(),
            old(self)@.updated(event, final(self)@),
    {
        match event {
            Event::Term(TermEvent::Key { key, released }) => {
                if !released {
                    self.on_key(key);
                }
            },
            Event::Term(TermEvent::Other) => {},
            Event::SearchDone { generation, result } => {
                if generation == self.generation {
                    self.searching = false;
                    match result {
                        Ok(hits) => {
                            self.hits = hits;
                            self.select(0);
                        },
                        Err(message) => {
                            self.note = Some(message);
                        },
                    }
                }
            },
            Event::Player(update) => {
                self.player_state = Some(update);
            },
        }
    }

    /// How the search pane's line shows in a pane of `width` columns, its
    /// border among them.
    pub fn draw_input(&self, width: u16) -> (pane: InputPane)
        requires
            self.has_cursor(),
        ensures
            pane == input_pane(
                columns_before(self@.text, self@.cursor),
                columns_scrolled(self@.text, self@.cursor, inner_width(width) as nat),
                width,
                self@.focus,
            ),
    {
        let inner: u16 = width.saturating_sub(2);
        let scroll: usize = scroll_columns(&self.input, inner as usize);
        place_input(cursor_columns(&self.input), scroll, width, self.focus)
    }

    /// What the edit pane shows.
    pub fn draw_edl(&self) -> (pane: EditPane)
        requires
            self.is_planned(),
        ensures
            pane.shows(self@),
    {
        let title: String = edit_title(&self.edit, &self.plan);
        let rows: Vec<Vec<String>> = clip_rows(&self.edit, &self.plan);
        proof {
            let e = self.edit@;
            if self.plan is Some {
                let plan = self.plan->0;
                assert(interval_views(plan.clip_output@) == outputs_of(e));
                assert forall|i: int| 0 <= i < rows@.len() implies super::ui::plan_start(
                    self.plan,
                    i,
                ) == #[trigger] shown_start(e, i) by {
                    assert(interval_views(plan.clip_output@).len() == plan.clip_output@.len());
                    if i < plan.clip_output@.len() {
                        assert(interval_views(plan.clip_output@)[i].0 == plan.clip_output@[i].0);
                    }
                }
            }
        }
        EditPane { title, rows, selected: self.selected_clip }
    }

    /// What the screen shows.
    pub fn draw(&self) -> (screen: Screen)
        requires
            self.has_cursor(),
            self.is_planned(),
        ensures
            screen.shows(self@),
    {
        let query: &str = self.input.value();
        let title: String = results_title(query, &self.hits);
        let mut rows: Vec<HitRow> = Vec::new();
        let mut i: usize = 0;
        while i < self.hits.len()
            invariant
                i <= self.hits@.len(),
                rows@.len() == i,
                forall|k: int|
                    #![trigger rows@[k]]
                    0 <= k < rows@.len() ==> rows@[k].shows(self.hits@[k]),
            decreases self.hits@.len() - i,
        {
            let row = HitRow {
                cells: hit_cells(&self.hits[i]),
                line: highlighted_line(&self.hits[i]),
            };
            assert(row.shows(self.hits@[i as int]));
            rows.push(row);
            i = i + 1;
        }
        let status: Vec<Styled> = status_line(
            &self.note,
            self.searching,
            self.corpus_db.as_str(),
            &self.player_state,
            self.focus,
        );
        Screen {
            focus: self.focus,
            query: query.to_owned(),
            title,
            rows,
            selected: self.selected,
            edit: self.draw_edl(),
            status,
        }
    }

    /// The recovery file could not be written. A compile fault of the same
    /// change is told rather than this.
    pub fn autosave_failed(&mut self, message: String)
        requires
            old(self).wf(),
        ensures
            final(self).wf(),
            final(self)@ == if edit_fault(old(self)@.edit.clips, old(self)@.edit.infos) is Some {
                old(self)@
            } else {
                AppView { note: Some(message@), ..old(self)@ }
            },
    {
        if self.plan.is_some() {
            self.note = Some(message);
        }
    }

    /// The edit file was written.
    pub fn saved(&mut self)
        requires
            old(self).wf(),
        ensures
            final(self).wf(),
            final(self)@ == (AppView {
                edit: old(self)@.edit.saved(),
                note: Some("saved "@ + old(self)@.edit.path),
                ..old(self)@
            }),
    {
        self.edit.mark_saved();
        let mut s: String = "saved ".to_owned();
        s.append(self.edit.path());
        self.note = Some(s);
    }

    /// The edit file could not be written.
    pub fn save_failed(&mut self, message: String)
        requires
            old(self).wf(),
        ensures
            final(self).wf(),
            final(self)@ == (AppView { note: Some(message@), ..old(self)@ }),
    {
        self.note = Some(message);
    }
}

/// What is played of a hit: the match itself in a loop; the match with half a
/// second on either side (from the start of the source at the earliest); or the
/// whole utterance. It is played from the hit's own master and told by the words of
/// the match, or by the utterance's text.
pub proof fn law_auditions_play_the_match(hit: SearchHit)
    requires
        playable(hit),
    ensures
        ({
            let m = hit.matches@[0];
            let from = hit.words@[m.start as int].t_start as int;
            let to = hit.words@[m.end - 1].t_end as int;
            let words = joined(
                Seq::new((m.end - m.start) as nat, |i: int| hit.words@[m.start + i].text@),
                " "@,
            );
            &&& audition_of(hit, AuditionKind::LoopExact) == CmdView::Audition {
                master_path: hit.source@.master_path,
                start: from,
                end: to,
                looped: true,
                label: words,
            }
            &&& audition_of(hit, AuditionKind::Context) matches CmdView::Audition {
                master_path,
                start,
                end,
                looped,
                label,
            } && master_path == hit.source@.master_path && !looped && label == words && end == to
                + 500_000_000 && (from >= 500_000_000 ==> start == from - 500_000_000) && (from
                < 500_000_000 ==> start == 0)
            &&& audition_of(hit, AuditionKind::FullUtterance) == CmdView::Audition {
                master_path: hit.source@.master_path,
                start: hit.t_start as int,
                end: hit.t_end as int,
                looped: false,
                label: hit.text@,
            }
        }),
{
    let m = hit.matches@[0];
    assert(word_texts(hit.words@).subrange(m.start as int, m.end as int) =~= Seq::new(
        (m.end - m.start) as nat,
        |i: int| hit.words@[m.start + i].text@,
    ));
}

/// The clip of a hit spans the match on the hit's source, with both channels and
/// untransformed, remembers the utterance, and is labelled by the words of the
/// match.
pub proof fn law_clips_span_the_match(hit: SearchHit)
    requires
        playable(hit),
    ensures
        ({
            let m = hit.matches@[0];
            let clip = clip_of(hit);
            &&& clip.span.source == hit.source.id
            &&& clip.span.t_start == Real::Nano(hit.words@[m.start as int].t_start)
            &&& clip.span.t_end == Real::Nano(hit.words@[m.end - 1].t_end)
            &&& clip.span.channel == Channel::Both
            &&& clip.transforms.len() == 0
            &&& clip.provenance == Some(ProvenanceRef::Utterance(hit.utterance_id))
            &&& clip.label == Some(
                joined(
                    Seq::new((m.end - m.start) as nat, |i: int| hit.words@[m.start + i].text@),
                    " "@,
                ),
            )
        }),
{
    law_auditions_play_the_match(hit);
}

/// A selection moves by as many items as it is told to, and stops at the first and
/// at the last.
pub proof fn law_selections_move_and_stop(at: usize, delta: isize, len: nat)
    requires
        at < len <= usize::MAX,
    ensures
        0 <= at + delta < len ==> moved_to(Some(at), delta, len) == at + delta,
        at + delta < 0 ==> moved_to(Some(at), delta, len) == 0,
        at + delta >= len ==> moved_to(Some(at), delta, len) == len - 1,
        clamped_to(at, len) == Some(at),
        clamped_to(at, 0) is None,
        at > 0 ==> clamped_to(at, at as nat) == Some((at - 1) as usize),
{
}

/// Trims nudge by five milliseconds, or by twenty-five: the start with comma and
/// period or their shifted keys, the end with the brackets or the braces.
pub proof fn law_trim_keys_nudge_an_edge(key: Key)
    ensures
        ({
            let does = |c: char, edge: Edge, by: int|
                key.code == KeyCode::Char(c) ==> edit_action_of(key) == EditAction::Trim(
                    edge,
                    by as i64,
                );
            &&& does(',', Edge::Start, -5_000_000)
            &&& does('.', Edge::Start, 5_000_000)
            &&& does('<', Edge::Start, -25_000_000)
            &&& does('>', Edge::Start, 25_000_000)
            &&& does('[', Edge::End, -5_000_000)
            &&& does(']', Edge::End, 5_000_000)
            &&& does('{', Edge::End, -25_000_000)
            &&& does('}', Edge::End, 25_000_000)
        }),
{
}

/// The other keys of the edit pane: arrows and pages move the selection, with shift
/// (or `J` and `K`) the clip; the rest remove, undo, redo, preview and save.
pub proof fn law_edit_keys_do_one_thing(key: Key)
    ensures
        ({
            let does = |code: KeyCode, action: EditAction|
                key.code == code ==> edit_action_of(key) == action;
            let plain = !key.has_shift() && !key.has_control();
            &&& plain ==> does(KeyCode::Up, EditAction::MoveSelection((-1) as isize))
            &&& plain ==> does(KeyCode::Down, EditAction::MoveSelection(1))
            &&& key.has_shift() ==> does(KeyCode::Up, EditAction::MoveClip((-1) as isize))
            &&& key.has_shift() ==> does(KeyCode::Down, EditAction::MoveClip(1))
            &&& does(KeyCode::PageUp, EditAction::MoveSelection((-10) as isize))
            &&& does(KeyCode::PageDown, EditAction::MoveSelection(10))
            &&& does(KeyCode::Char('K'), EditAction::MoveClip((-1) as isize))
            &&& does(KeyCode::Char('J'), EditAction::MoveClip(1))
            &&& does(KeyCode::Char('d'), EditAction::Remove)
            &&& does(KeyCode::Delete, EditAction::Remove)
            &&& does(KeyCode::Backspace, EditAction::Remove)
            &&& does(KeyCode::Char('u'), EditAction::Undo)
            &&& does(KeyCode::Char('U'), EditAction::Redo)
            &&& key.has_control() ==> does(KeyCode::Char('r'), EditAction::Redo)
            &&& plain ==> does(KeyCode::Char('r'), EditAction::Nothing)
            &&& does(KeyCode::Char(' '), EditAction::TogglePreview)
            &&& does(KeyCode::Enter, EditAction::PreviewFromSelected)
            &&& does(KeyCode::Char('s'), EditAction::Save)
        }),
{
}

/// After a change the edit is to be autosaved. Where it compiles, a trimmed clip is
/// replayed with half a second on either side, within the output; another change
/// resumes a preview that is on, at most at the new end; and with no clips left a
/// preview that is on is stopped. Where it does not compile, nothing is played.
pub proof fn law_changes_are_previewed(s: AppView, replay: Option<usize>)
    ensures
        ({
            let end = s.after_mutation(replay);
            let compiles = edit_fault(s.edit.clips, s.edit.infos) is None;
            let outs = outputs_of(s.edit);
            &&& end.autosave_due
            &&& end.edit == s.edit
            &&& end.hits == s.hits && end.selected == s.selected && end.selected_clip
                == s.selected_clip
            &&& !compiles ==> end.commands == s.commands && end.note is Some
            &&& compiles ==> end.note == s.note
            &&& compiles && s.edit.clips.len() == 0 ==> !end.active && end.commands == if s.active {
                s.commands.push(CmdView::Stop)
            } else {
                s.commands
            }
            &&& compiles && s.edit.clips.len() > 0 && replay is None ==> end.active == s.active
                && end.commands == if s.active {
                s.commands.push(
                    CmdView::Preview {
                        uri: uri_of(s.edit),
                        seek: PreviewSeek::Resume { max: length_of(s.edit) as i128 },
                    },
                )
            } else {
                s.commands
            }
            &&& compiles && s.edit.clips.len() > 0 && replay is Some && replay->0 < outs.len() ==> {
                let (a, b) = outs[replay->0 as int];
                let start = (if a >= 500_000_000 {
                    a - 500_000_000
                } else {
                    0
                }) as i128;
                let until = (if b + 500_000_000 <= length_of(s.edit) {
                    b + 500_000_000
                } else {
                    length_of(s.edit)
                }) as i128;
                &&& end.active
                &&& end.commands == s.commands.push(
                    CmdView::Preview {
                        uri: uri_of(s.edit),
                        seek: PreviewSeek::Window { start, end: until },
                    },
                )
            }
        }),
{
    reveal(AppView::after_mutation);
}

/// A removal takes the selected clip away, and the selection stays where it is, or
/// goes to the last clip.
#[verifier::spinoff_prover]
pub proof fn law_removals_take_the_selected_clip(s: AppView, i: usize)
    requires
        s.selected_clip == Some(i),
        i < s.edit.clips.len() <= usize::MAX,
    ensures
        ({
            let end = s.edited(EditAction::Remove);
            &&& end.edit.clips == s.edit.clips.remove(i as int)
            &&& end.edit.undo.last() == s.edit.clips
            &&& s.edit.clips.len() > i + 1 ==> end.selected_clip == Some(i)
            &&& s.edit.clips.len() == i + 1 && i > 0 ==> end.selected_clip == Some((i - 1) as usize)
            &&& s.edit.clips.len() == 1 ==> end.selected_clip is None
        }),
{
    let t = AppView { edit: s.edit.mutated(s.edit.clips.remove(i as int)), ..s }.selecting_clip(i);
    law_changes_are_previewed(t, None);
}

/// A move takes the selected clip, and the selection with it, to its new place,
/// whose clip it exchanges; without such a place nothing changes. The selection
/// alone moves without changing the edit.
#[verifier::spinoff_prover]
pub proof fn law_moves_take_the_selection_along(s: AppView, i: usize, delta: isize)
    requires
        s.selected_clip == Some(i),
        i < s.edit.clips.len() <= usize::MAX,
    ensures
        ({
            let end = s.edited(EditAction::MoveClip(delta));
            let to = i + delta;
            &&& !(0 <= to < s.edit.clips.len()) ==> end == s
            &&& 0 <= to < s.edit.clips.len() ==> end.selected_clip == Some(to as usize)
                && end.edit.clips[to] == s.edit.clips[i as int] && end.edit.clips[i as int]
                == s.edit.clips[to] && end.edit.clips.len() == s.edit.clips.len()
        }),
        ({
            let end = s.edited(EditAction::MoveSelection(delta));
            &&& end.edit == s.edit && end.commands == s.commands
            &&& 0 <= i + delta < s.edit.clips.len() ==> end.selected_clip == Some(
                (i + delta) as usize,
            )
        }),
{
    let to = i + delta;
    if 0 <= to < s.edit.clips.len() {
        law_changes_are_previewed(
            AppView {
                edit: s.edit.mutated(s.edit.exchanged(i as int, to)),
                selected_clip: Some(to as usize),
                ..s
            },
            None,
        );
    }
}

/// An undo or a redo brings the clips back that it should, where there are any, and
/// a save prunes and writes; no other action is one.
#[verifier::spinoff_prover]
pub proof fn law_undo_redo_and_save_act_on_the_edit(s: AppView)
    ensures
        s.edit.undo.len() == 0 ==> s.edited(EditAction::Undo) == s,
        s.edit.undo.len() > 0 ==> s.edited(EditAction::Undo).edit.clips == s.edit.undo.last(),
        s.edit.redo.len() == 0 ==> s.edited(EditAction::Redo) == s,
        s.edit.redo.len() > 0 ==> s.edited(EditAction::Redo).edit.clips == s.edit.redo.last(),
        s.edited(EditAction::Nothing) == s,
        s.edited(EditAction::Save).save_due,
        s.edited(EditAction::Save).edit.clips == s.edit.clips,
        s.edited(EditAction::Save).edit.sources.dom().subset_of(s.edit.sources.dom()),
{
    law_changes_are_previewed(
        AppView { edit: s.edit.undone(), ..s }.reselecting_clip(),
        None,
    );
    law_changes_are_previewed(
        AppView { edit: s.edit.redone(), ..s }.reselecting_clip(),
        None,
    );
}

/// An accepted trim changes the selected clip and replays it; a refused one changes
/// nothing.
#[verifier::spinoff_prover]
pub proof fn law_trims_change_the_selected_clip(s: AppView, i: usize, edge: Edge, delta: i64)
    requires
        s.selected_clip == Some(i),
        i < s.edit.clips.len(),
    ensures
        match s.edit.trim_result(i as int, edge, delta as int) {
            Some(clip) => {
                let end = s.edited(EditAction::Trim(edge, delta));
                &&& end.edit.clips == s.edit.clips.update(i as int, clip)
                &&& end.selected_clip == Some(i)
                &&& end.autosave_due
            },
            None => s.edited(EditAction::Trim(edge, delta)) == s,
        },
{
    if let Some(clip) = s.edit.trim_result(i as int, edge, delta as int) {
        law_changes_are_previewed(
            AppView { edit: s.edit.mutated(s.edit.clips.update(i as int, clip)), ..s },
            Some(i),
        );
    }
}

/// A preview starts at the beginning, or at the selected clip; one that is on is
/// paused or goes on.
pub proof fn law_previews_start_where_asked(s: AppView, i: usize)
    requires
        s.selected_clip == Some(i),
        i < outputs_of(s.edit).len(),
        s.edit.clips.len() > 0,
        edit_fault(s.edit.clips, s.edit.infos) is None,
    ensures
        s.active ==> s.edited(EditAction::TogglePreview).commands == s.commands.push(
            CmdView::TogglePause,
        ),
        !s.active ==> s.edited(EditAction::TogglePreview).commands == s.commands.push(
            CmdView::Preview { uri: uri_of(s.edit), seek: PreviewSeek::From(0) },
        ),
        s.edited(EditAction::PreviewFromSelected).commands == s.commands.push(
            CmdView::Preview {
                uri: uri_of(s.edit),
                seek: PreviewSeek::From(outputs_of(s.edit)[i as int].0 as i128),
            },
        ),
        s.edited(EditAction::TogglePreview).active,
        s.edited(EditAction::PreviewFromSelected).active,
{
}

/// An edited query is a new revision. One that is blank empties the results; any
/// other is searched for, without the blanks around it.
pub proof fn law_edited_queries_are_searched(s: AppView)
    ensures
        s.searched().generation == s.generation + 1,
        trimmed_text(s.text).len() == 0 ==> s.searched().hits.len() == 0 && !s.searched().searching
            && s.searched().selected is None && s.searched().requests == s.requests,
        trimmed_text(s.text).len() > 0 && s.requests is Some ==> s.searched().searching
            && s.searched().requests->0.len() == s.requests->0.len() + 1
            && s.searched().requests->0.last().generation == s.generation + 1
            && s.searched().requests->0.last().query == trimmed_text(s.text) && s.searched().hits
            == s.hits,
        s.searched().edit == s.edit && s.searched().commands == s.commands,
{
}

/// A result of the current revision replaces the hits and selects the first; a
/// failed one is told and leaves them.
pub proof fn law_current_results_are_shown(
    s: AppView,
    generation: u64,
    result: Result<Vec<SearchHit>, String>,
    end: AppView,
)
    requires
        generation == s.generation,
        s.updated(Event::SearchDone { generation, result }, end),
    ensures
        !end.searching,
        end.edit == s.edit && end.commands == s.commands && end.generation == s.generation,
        result matches Ok(hits) ==> end.hits == hits@ && (hits@.len() > 0 ==> end.selected == Some(
            0usize,
        )) && (hits@.len() == 0 ==> end.selected is None) && end.note == s.note,
        result matches Err(message) ==> end.hits == s.hits && end.selected == s.selected && end.note
            == Some(message@),
{
}

/// Escape and control-C end the program, tab changes the pane, control-A appends
/// the chosen hit and control-P stops the player, whichever pane has the focus. A
/// key that is released does nothing.
#[verifier::spinoff_prover]
pub proof fn law_keys_of_both_panes(s: AppView, key: Key, end: AppView)
    requires
        s.keyed(key, end),
    ensures
        key.code == KeyCode::Esc ==> end.quit && end.edit == s.edit,
        key.code == KeyCode::Char('c') && key.has_control() ==> end.quit && end.edit == s.edit,
        key.code == KeyCode::Tab ==> end.focus != s.focus && end.edit == s.edit && end.commands
            == s.commands && end.quit == s.quit,
        key.code == KeyCode::Char('p') && key.has_control() ==> end.commands == s.commands.push(
            CmdView::Stop,
        ) && end.edit == s.edit,
        key.code == KeyCode::Char('a') && key.has_control() ==> match s.selected {
            Some(i) => if i < s.hits.len() && s.hits[i as int].matches@.len() > 0 {
                &&& end.edit.clips == s.edit.clips.push(clip_of(s.hits[i as int]))
                &&& end.selected_clip == Some(s.edit.clips.len() as usize)
                &&& end.autosave_due
            } else {
                end == s
            },
            None => end == s,
        },
        s.updated(Event::Term(TermEvent::Key { key, released: true }), end) ==> end == s,
{
    reveal(AppView::after_mutation);
}

/// The search pane's keys move the selection through the hits and audition the
/// chosen one; they never change the edit.
pub proof fn law_keys_of_the_search_pane(s: AppView, key: Key, end: AppView)
    requires
        s.focus == Pane::Search,
        s.keyed(key, end),
        s.selected matches Some(i) && i < s.hits.len() <= usize::MAX,
    ensures
        ({
            let i = s.selected->0 as int;
            let hit = s.hits[i];
            let to = |n: int|
                end.selected == Some(
                    (if n < 0 {
                        0
                    } else if n < s.hits.len() {
                        n
                    } else {
                        s.hits.len() - 1
                    }) as usize,
                ) && end.hits == s.hits && end.edit == s.edit;
            let plays = |kind: AuditionKind|
                hit.matches@.len() > 0 ==> end.commands == s.commands.push(audition_of(hit, kind))
                    && end.edit == s.edit && !end.active;
            &&& key.code == KeyCode::Up ==> to(i - 1)
            &&& key.code == KeyCode::Down ==> to(i + 1)
            &&& key.code == KeyCode::PageUp ==> to(i - 10)
            &&& key.code == KeyCode::PageDown ==> to(i + 10)
            &&& key.code == KeyCode::Enter ==> plays(AuditionKind::LoopExact)
            &&& key.code == KeyCode::Char('t') && key.has_control() ==> plays(AuditionKind::Context)
            &&& key.code == KeyCode::Char('u') && key.has_control() ==> plays(
                AuditionKind::FullUtterance,
            )
        }),
{
}

/// The query line's cursor is shown, in the search pane alone, as many columns into
/// the box as it is past what is scrolled away, one further for the border, and at
/// most at the box's end.
pub proof fn law_the_cursor_is_shown_in_the_box(columns: nat, scroll: nat, width: u16)
    requires
        width >= 2,
        scroll <= columns <= u16::MAX,
    ensures
        ({
            let pane = input_pane(columns, scroll, width, Pane::Search);
            &&& pane.scroll == scroll
            &&& columns - scroll < width - 2 ==> pane.cursor == Some((columns - scroll + 1) as u16)
            &&& columns - scroll >= width - 2 ==> pane.cursor == Some((width - 1) as u16)
            &&& input_pane(columns, scroll, width, Pane::Edit).cursor is None
        }),
{
}

/// The program starts in the search pane, with nothing searched, played or to be
/// saved, on the edit that it is given, with its first clip selected, and tells what
/// it was given to tell, or why the edit does not compile.
pub proof fn law_the_program_starts_in_the_search_pane(
    db: Seq<char>,
    requests: Option<Seq<RequestView>>,
    commands: Seq<CmdView>,
    edit: SessionView,
    notes: Seq<Seq<char>>,
)
    ensures
        ({
            let s = started(db, requests, commands, edit, notes);
            let compiles = edit_fault(edit.clips, edit.infos) is None;
            &&& s.focus == Pane::Search && s.text.len() == 0 && s.hits.len() == 0 && s.selected is None
            &&& !s.quit && !s.searching && !s.active && !s.autosave_due && !s.save_due
            &&& s.edit == edit && s.commands == commands && s.requests == requests
            &&& edit.clips.len() > 0 ==> s.selected_clip == Some(0usize)
            &&& edit.clips.len() == 0 ==> s.selected_clip is None
            &&& compiles && notes.len() == 0 ==> s.note is None
            &&& compiles && notes.len() > 0 ==> s.note == Some(joined(notes, "; "@))
            &&& !compiles ==> s.note is Some
        }),
{
}

} // verus!
