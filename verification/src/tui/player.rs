//! The playback player: what the actor that owns the slave mpv does with the
//! application's requests and mpv's events.
//!
//! An audition plays a window of a playback master, looped or once; a preview
//! plays the compiled timeline, and a reload after a recompile keeps the output
//! position. Every request and event is turned into steps for the actor to
//! perform in order: commands to mpv, the start of the seek clock, and status
//! updates for the application.
use crate::edl::opt_text;
use crate::json::{json_view, quantity_of, Json, JsonView};
use crate::mpv::{MpvEvent, MpvEventView};
use crate::number::Real;
use crate::text::same;
use vstd::prelude::*;

verus! {

/// The observation id of the playback position.
pub const TIME_POS_ID: u64 = 1;

/// The observation id of the end-of-file flag.
pub const EOF_ID: u64 = 2;

/// How far before its end a window counts as played, in nanoseconds: the
/// observation arrives about a frame late anyway.
pub const END_SLACK: i128 = 5_000_000;

/// One audition: play a window of a playback master, looping or once. Times in
/// nanoseconds.
#[derive(Debug)]
pub struct Audition {
    pub master_path: String,
    pub start: i128,
    pub end: i128,
    pub looped: bool,
    /// What is playing, for the status line.
    pub label: String,
}

/// Where a preview begins. Output times in nanoseconds.
#[derive(Debug, Clone, Copy, PartialEq, Eq, Structural)]
pub enum PreviewSeek {
    /// Reload after a recompile: keep the current output position, clamped
    /// where the edit shrank under the playhead, and the pause state.
    Resume { max: i128 },
    /// Play from an absolute output time.
    From(i128),
    /// Play a window once, then pause.
    Window { start: i128, end: i128 },
}

/// Load (or reload) the compiled preview timeline.
#[derive(Debug)]
pub struct Preview {
    /// The compiled `edl://` URI.
    pub uri: String,
    pub seek: PreviewSeek,
}

/// A request of the application.
#[derive(Debug)]
pub enum PlayerCmd {
    Audition(Audition),
    Preview(Preview),
    TogglePause,
    Stop,
}

/// A request, as a value.
pub enum CmdView {
    Audition { master_path: Seq<char>, start: int, end: int, looped: bool, label: Seq<char> },
    Preview { uri: Seq<char>, seek: PreviewSeek },
    TogglePause,
    Stop,
}

impl View for PlayerCmd {
    type V = CmdView;

    open spec fn view(&self) -> CmdView {
        match self {
            PlayerCmd::Audition(a) => CmdView::Audition {
                master_path: a.master_path@,
                start: a.start as int,
                end: a.end as int,
                looped: a.looped,
                label: a.label@,
            },
            PlayerCmd::Preview(p) => CmdView::Preview { uri: p.uri@, seek: p.seek },
            PlayerCmd::TogglePause => CmdView::TogglePause,
            PlayerCmd::Stop => CmdView::Stop,
        }
    }
}

/// Requests as values.
pub open spec fn cmd_views(v: Seq<PlayerCmd>) -> Seq<CmdView> {
    Seq::new(v.len(), |i: int| v[i]@)
}

/// The application's end of the player: requests to hand to the actor, in
/// order.
#[derive(Debug)]
pub struct PlayerHandle {
    pub queue: Vec<PlayerCmd>,
}

impl PlayerHandle {
    /// Nothing asked yet.
    pub fn new() -> (h: PlayerHandle)
        ensures
            cmd_views(h.queue@) == Seq::<CmdView>::empty(),
    {
        let h = PlayerHandle { queue: Vec::new() };
        assert(cmd_views(h.queue@) =~= Seq::empty());
        h
    }

    fn send(&mut self, cmd: PlayerCmd)
        ensures
            cmd_views(final(self).queue@) == cmd_views(old(self).queue@).push(cmd@),
    {
        let ghost before = cmd_views(self.queue@);
        let ghost added = cmd@;
        self.queue.push(cmd);
        assert(cmd_views(self.queue@) =~= before.push(added));
    }

    /// Asks for an audition.
    pub fn audition(&mut self, audition: Audition)
        ensures
            cmd_views(final(self).queue@) == cmd_views(old(self).queue@).push(
                PlayerCmd::Audition(audition)@,
            ),
    {
        self.send(PlayerCmd::Audition(audition));
    }

    /// Asks for a preview.
    pub fn preview(&mut self, preview: Preview)
        ensures
            cmd_views(final(self).queue@) == cmd_views(old(self).queue@).push(
                PlayerCmd::Preview(preview)@,
            ),
    {
        self.send(PlayerCmd::Preview(preview));
    }

    /// Asks to pause or play on.
    pub fn toggle_pause(&mut self)
        ensures
            cmd_views(final(self).queue@) == cmd_views(old(self).queue@).push(CmdView::TogglePause),
    {
        self.send(PlayerCmd::TogglePause);
    }

    /// Asks to stop.
    pub fn stop(&mut self)
        ensures
            cmd_views(final(self).queue@) == cmd_views(old(self).queue@).push(CmdView::Stop),
    {
        self.send(PlayerCmd::Stop);
    }

    /// Takes the requests to hand on.
    pub fn take(&mut self) -> (cmds: Vec<PlayerCmd>)
        ensures
            cmds@ == old(self).queue@,
            final(self).queue@.len() == 0,
    {
        let mut cmds: Vec<PlayerCmd> = Vec::new();
        std::mem::swap(&mut self.queue, &mut cmds);
        cmds
    }
}

/// Player status for the status line.
#[derive(Debug)]
pub enum PlayerUpdate {
    Ready { version: String },
    Playing {
        label: String,
        looped: bool,
        /// Seek-command-to-restart round trip in milliseconds, once measured.
        seek_ms: Option<u64>,
    },
    /// A window reached its end and was paused.
    Done,
    Stopped,
    Failed(String),
}

/// Player status, as a value.
pub enum UpdateView {
    Ready { version: Seq<char> },
    Playing { label: Seq<char>, looped: bool, seek_ms: Option<u64> },
    Done,
    Stopped,
    Failed(Seq<char>),
}

impl View for PlayerUpdate {
    type V = UpdateView;

    open spec fn view(&self) -> UpdateView {
        match self {
            PlayerUpdate::Ready { version } => UpdateView::Ready { version: version@ },
            PlayerUpdate::Playing { label, looped, seek_ms } => UpdateView::Playing {
                label: label@,
                looped: *looped,
                seek_ms: *seek_ms,
            },
            PlayerUpdate::Done => UpdateView::Done,
            PlayerUpdate::Stopped => UpdateView::Stopped,
            PlayerUpdate::Failed(e) => UpdateView::Failed(e@),
        }
    }
}

/// One argument of an mpv command. A time is in nanoseconds.
#[derive(Debug, PartialEq, Eq)]
pub enum Arg {
    Text(String),
    Flag(bool),
    Number(u64),
    Time(i128),
}

/// One argument of an mpv command, as a value.
pub enum ArgView {
    Text(Seq<char>),
    Flag(bool),
    Number(int),
    Time(int),
}

impl View for Arg {
    type V = ArgView;

    open spec fn view(&self) -> ArgView {
        match self {
            Arg::Text(s) => ArgView::Text(s@),
            Arg::Flag(b) => ArgView::Flag(*b),
            Arg::Number(n) => ArgView::Number(*n as int),
            Arg::Time(t) => ArgView::Time(*t as int),
        }
    }
}

/// Arguments as values.
pub open spec fn arg_views(v: Seq<Arg>) -> Seq<ArgView> {
    Seq::new(v.len(), |i: int| v[i]@)
}

/// One thing for the actor to do.
#[derive(Debug)]
pub enum Step {
    /// Send a command to mpv and await its reply; a failure ends the actor.
    Send(Vec<Arg>),
    /// Start the clock that the seek round trip is measured with.
    StartClock,
    /// Tell the application.
    Tell(PlayerUpdate),
}

/// One thing for the actor to do, as a value.
pub enum StepView {
    Send(Seq<ArgView>),
    StartClock,
    Tell(UpdateView),
}

impl View for Step {
    type V = StepView;

    open spec fn view(&self) -> StepView {
        match self {
            Step::Send(args) => StepView::Send(arg_views(args@)),
            Step::StartClock => StepView::StartClock,
            Step::Tell(update) => StepView::Tell(update@),
        }
    }
}

/// Steps as values.
pub open spec fn step_views(v: Seq<Step>) -> Seq<StepView> {
    Seq::new(v.len(), |i: int| v[i]@)
}

/// One resolved playback request, audition and preview alike: seek to `start`;
/// loop to `end` when looped, pause there when not (none: play out to the end
/// of the file, where mpv pauses).
#[derive(Debug)]
pub struct Job {
    pub target: String,
    pub start: i128,
    pub end: Option<i128>,
    pub looped: bool,
    /// Restore a paused playhead instead of playing (preview resume).
    pub start_paused: bool,
    pub label: String,
}

/// A playback request, as a value.
pub struct JobView {
    pub target: Seq<char>,
    pub start: int,
    pub end: Option<int>,
    pub looped: bool,
    pub start_paused: bool,
    pub label: Seq<char>,
}

impl View for Job {
    type V = JobView;

    open spec fn view(&self) -> JobView {
        JobView {
            target: self.target@,
            start: self.start as int,
            end: match self.end {
                Some(t) => Some(t as int),
                None => None,
            },
            looped: self.looped,
            start_paused: self.start_paused,
            label: self.label@,
        }
    }
}

/// Where the active job stands.
#[derive(Debug)]
pub enum Phase {
    Idle,
    /// The file is being loaded; seek when it is.
    Loading(Job),
    /// The seek was sent; playback's restart completes it.
    Seeking(Job),
    Playing(Job),
}

/// Where the active job stands, as a value.
pub enum PhaseView {
    Idle,
    Loading(JobView),
    Seeking(JobView),
    Playing(JobView),
}

impl View for Phase {
    type V = PhaseView;

    open spec fn view(&self) -> PhaseView {
        match self {
            Phase::Idle => PhaseView::Idle,
            Phase::Loading(job) => PhaseView::Loading(job@),
            Phase::Seeking(job) => PhaseView::Seeking(job@),
            Phase::Playing(job) => PhaseView::Playing(job@),
        }
    }
}

/// The actor's state: what mpv has loaded, and the active job.
#[derive(Debug)]
pub struct Player {
    current: Option<String>,
    phase: Phase,
}

/// The actor's state, as a value.
pub struct PlayerView {
    pub current: Option<Seq<char>>,
    pub phase: PhaseView,
}

impl View for Player {
    type V = PlayerView;

    closed spec fn view(&self) -> PlayerView {
        PlayerView { current: opt_text(self.current), phase: self.phase@ }
    }
}

impl JobView {
    /// A looped job has an end to loop from.
    pub open spec fn wf(self) -> bool {
        self.looped ==> self.end is Some
    }
}

impl PlayerView {
    /// The active job is of the file that mpv has.
    pub open spec fn holds(self, job: JobView) -> bool {
        job.wf() && self.current == Some(job.target)
    }

    /// The state is consistent.
    pub open spec fn wf(self) -> bool {
        match self.phase {
            PhaseView::Idle => true,
            PhaseView::Loading(job) => self.holds(job),
            PhaseView::Seeking(job) => self.holds(job),
            PhaseView::Playing(job) => self.holds(job),
        }
    }
}

// -------------------------------------------------------------- what is decided

/// A command that sets a property.
pub open spec fn set_property(name: Seq<char>, v: ArgView) -> StepView {
    StepView::Send(seq![ArgView::Text("set_property"@), ArgView::Text(name), v])
}

/// The commands that clear the loop.
pub open spec fn clear_loop() -> Seq<StepView> {
    seq![
        set_property("ab-loop-a"@, ArgView::Text("no"@)),
        set_property("ab-loop-b"@, ArgView::Text("no"@)),
    ]
}

/// The commands that set the loop of a job, or clear it.
pub open spec fn loop_steps(job: JobView) -> Seq<StepView> {
    if job.looped {
        seq![
            set_property("ab-loop-a"@, ArgView::Time(job.start)),
            set_property("ab-loop-b"@, ArgView::Time(job.end->0)),
        ]
    } else {
        clear_loop()
    }
}

/// What starts a job whose file is loaded: loop set or cleared, an exact seek
/// to the window's start, the pause state, and the status.
pub open spec fn start_steps(job: JobView) -> Seq<StepView> {
    loop_steps(job) + seq![
        StepView::Send(
            seq![
                ArgView::Text("seek"@),
                ArgView::Time(job.start),
                ArgView::Text("absolute+exact"@),
            ],
        ),
        StepView::StartClock,
        set_property("pause"@, ArgView::Flag(job.start_paused)),
        StepView::Tell(
            UpdateView::Playing { label: job.label, looped: job.looped, seek_ms: None },
        ),
    ]
}

/// The position to resume at: the one read back, within the timeline; the
/// beginning where none could be read.
pub open spec fn resume_at(pos: Option<JsonView>, max: int) -> int {
    let t = match quantity_of(pos) {
        Some(Real::Nano(n)) => n as int,
        _ => 0,
    };
    if t < 0 {
        0
    } else if t > max {
        max
    } else {
        t
    }
}

/// The job of a playback request; `pos` and `paused` are what mpv reports of
/// its position and pause state.
pub open spec fn job_of(cmd: CmdView, pos: Option<JsonView>, paused: Option<JsonView>) -> JobView {
    match cmd {
        CmdView::Audition { master_path, start, end, looped, label } => JobView {
            target: master_path,
            start,
            end: Some(end),
            looped,
            start_paused: false,
            label,
        },
        CmdView::Preview { uri, seek } => JobView {
            target: uri,
            start: match seek {
                PreviewSeek::Resume { max } => resume_at(pos, max as int),
                PreviewSeek::From(t) => t as int,
                PreviewSeek::Window { start, .. } => start as int,
            },
            end: match seek {
                PreviewSeek::Window { end, .. } => Some(end as int),
                _ => None,
            },
            looped: false,
            start_paused: seek is Resume && paused == Some(JsonView::Bool(true)),
            label: "preview"@,
        },
        _ => arbitrary(),
    }
}

/// A request for playback: only the newest matters when requests outpace mpv.
pub open spec fn supersedable(cmd: CmdView) -> bool {
    cmd is Audition || cmd is Preview
}

/// The steps of a request.
pub open spec fn cmd_steps(
    s: PlayerView,
    cmd: CmdView,
    pos: Option<JsonView>,
    paused: Option<JsonView>,
) -> Seq<StepView> {
    let pause = set_property("pause"@, ArgView::Flag(true));
    match cmd {
        CmdView::Stop => seq![pause] + clear_loop() + seq![StepView::Tell(UpdateView::Stopped)],
        CmdView::TogglePause => if s.current is Some {
            seq![StepView::Send(seq![ArgView::Text("cycle"@), ArgView::Text("pause"@)])]
        } else {
            Seq::empty()
        },
        _ => {
            let job = job_of(cmd, pos, paused);
            if s.current == Some(job.target) {
                seq![pause] + start_steps(job)
            } else {
                seq![pause].push(
                    StepView::Send(
                        seq![
                            ArgView::Text("loadfile"@),
                            ArgView::Text(job.target),
                            ArgView::Text("replace"@),
                        ],
                    ),
                )
            }
        },
    }
}

/// The state after a request.
pub open spec fn after_cmd(
    s: PlayerView,
    cmd: CmdView,
    pos: Option<JsonView>,
    paused: Option<JsonView>,
) -> PlayerView {
    match cmd {
        CmdView::Stop => PlayerView { phase: PhaseView::Idle, ..s },
        CmdView::TogglePause => s,
        _ => {
            let job = job_of(cmd, pos, paused);
            if s.current == Some(job.target) {
                PlayerView { phase: PhaseView::Seeking(job), ..s }
            } else {
                PlayerView { current: Some(job.target), phase: PhaseView::Loading(job) }
            }
        },
    }
}

/// Whether a property change ends the active job: a window that is not looped
/// has been played to its end, or the file has.
pub open spec fn finishes(phase: PhaseView, id: int, data: JsonView) -> bool {
    match phase {
        PhaseView::Playing(job) => !job.looped && if id == TIME_POS_ID && job.end is Some {
            match data.quantity() {
                Some(Real::Nano(t)) => t >= job.end->0 - END_SLACK,
                Some(Real::Infinity) => true,
                _ => false,
            }
        } else {
            id == EOF_ID && data == JsonView::Bool(true)
        },
        _ => false,
    }
}

/// The steps of an mpv event, `elapsed` milliseconds into the seek clock.
pub open spec fn event_steps(s: PlayerView, event: MpvEventView, elapsed: u64) -> Seq<StepView> {
    match event {
        MpvEventView::FileLoaded => match s.phase {
            PhaseView::Loading(job) => start_steps(job),
            _ => Seq::empty(),
        },
        MpvEventView::PlaybackRestart => match s.phase {
            PhaseView::Seeking(job) => seq![
                StepView::Tell(
                    UpdateView::Playing {
                        label: job.label,
                        looped: job.looped,
                        seek_ms: Some(elapsed),
                    },
                ),
            ],
            _ => Seq::empty(),
        },
        MpvEventView::PropertyChange { id, data } => if finishes(s.phase, id, data) {
            seq![
                set_property("pause"@, ArgView::Flag(true)),
                StepView::Tell(UpdateView::Done),
            ]
        } else {
            Seq::empty()
        },
        MpvEventView::Disconnected => Seq::empty(),
    }
}

/// The state after an mpv event. A load or restart that no job waits for
/// leaves the player idle.
pub open spec fn after_event(s: PlayerView, event: MpvEventView) -> PlayerView {
    PlayerView {
        phase: match event {
            MpvEventView::FileLoaded => match s.phase {
                PhaseView::Loading(job) => PhaseView::Seeking(job),
                _ => PhaseView::Idle,
            },
            MpvEventView::PlaybackRestart => match s.phase {
                PhaseView::Seeking(job) => PhaseView::Playing(job),
                _ => PhaseView::Idle,
            },
            MpvEventView::PropertyChange { id, data } => if finishes(s.phase, id, data) {
                PhaseView::Idle
            } else {
                s.phase
            },
            MpvEventView::Disconnected => s.phase,
        },
        ..s
    }
}

// ------------------------------------------------------------------------ laws

/// Whatever is asked or reported, the active job stays the one of the file that
/// mpv has, and a looped job has an end.
pub proof fn law_player_stays_consistent(
    s: PlayerView,
    cmd: CmdView,
    pos: Option<JsonView>,
    paused: Option<JsonView>,
    event: MpvEventView,
)
    requires
        s.wf(),
    ensures
        after_cmd(s, cmd, pos, paused).wf(),
        after_event(s, event).wf(),
{
}

/// A looped job is never paused by the player itself.
pub proof fn law_loops_never_pause(job: JobView, id: int, data: JsonView)
    requires
        job.looped,
    ensures
        !finishes(PhaseView::Playing(job), id, data),
{
}

/// A window ends only once its seek has completed: no position report ends a
/// job that is still loading or seeking.
pub proof fn law_windows_end_only_while_playing(s: PlayerView, id: int, data: JsonView)
    requires
        !(s.phase is Playing),
    ensures
        event_steps(s, MpvEventView::PropertyChange { id, data }, 0).len() == 0,
        after_event(s, MpvEventView::PropertyChange { id, data }) == s,
{
}

/// A resumed preview stays within the timeline.
pub proof fn law_resume_stays_in_timeline(pos: Option<JsonView>, max: int)
    requires
        max >= 0,
    ensures
        0 <= resume_at(pos, max) <= max,
{
}

// ------------------------------------------------------------------ supersession

/// The requests that are handled out of a queue: of adjacent playback requests
/// only the newest.
pub open spec fn handled(cmds: Seq<CmdView>) -> Seq<CmdView>
    decreases cmds.len(),
{
    if cmds.len() == 0 {
        Seq::empty()
    } else if cmds.len() > 1 && supersedable(cmds[0]) && supersedable(cmds[1]) {
        handled(cmds.drop_first())
    } else {
        seq![cmds[0]] + handled(cmds.drop_first())
    }
}

/// The requests that are not for playback.
pub open spec fn others(cmds: Seq<CmdView>) -> Seq<CmdView>
    decreases cmds.len(),
{
    if cmds.len() == 0 {
        Seq::empty()
    } else if supersedable(cmds[0]) {
        others(cmds.drop_first())
    } else {
        seq![cmds[0]] + others(cmds.drop_first())
    }
}

/// Only playback requests are superseded, and only by playback requests: every
/// other request is handled, in order; the newest request is handled; and no
/// two playback requests in a row are.
pub proof fn law_only_playback_is_superseded(cmds: Seq<CmdView>)
    ensures
        others(handled(cmds)) == others(cmds),
        cmds.len() > 0 ==> handled(cmds).len() > 0 && handled(cmds).last() == cmds.last(),
        forall|i: int, j: int|
            0 <= i && j == i + 1 && j < handled(cmds).len() ==> !(supersedable(
                #[trigger] handled(cmds)[i],
            ) && supersedable(#[trigger] handled(cmds)[j])),
    decreases cmds.len(),
{
    if cmds.len() > 0 {
        let rest = cmds.drop_first();
        law_only_playback_is_superseded(rest);
        if !(cmds.len() > 1 && supersedable(cmds[0]) && supersedable(cmds[1])) {
            let out = handled(cmds);
            assert(out.drop_first() =~= handled(rest));
            assert(out[0] == cmds[0]);
            if rest.len() > 0 {
                assert(handled(rest).last() == out.last());
                lemma_handled_first(rest);
            } else {
                assert(handled(rest).len() == 0);
            }
            assert forall|i: int, j: int|
                0 <= i && j == i + 1 && j < out.len() implies !(supersedable(#[trigger] out[i])
                && supersedable(#[trigger] out[j])) by {
                if i > 0 {
                    assert(out[i] == handled(rest)[i - 1]);
                    assert(out[j] == handled(rest)[j - 1]);
                } else {
                    assert(out[1] == handled(rest)[0]);
                }
            }
        }
    }
}

/// Draining the queue two requests at a time handles what is to be handled.
pub proof fn law_draining_handles(c: CmdView, n: CmdView, rest: Seq<CmdView>)
    ensures
        handled(seq![c, n] + rest) == (if supersedable(c) && supersedable(n) {
            handled(seq![n] + rest)
        } else {
            seq![c] + handled(seq![n] + rest)
        }),
        handled(seq![c]) == seq![c],
{
    assert((seq![c, n] + rest).drop_first() =~= seq![n] + rest);
    assert(seq![c].drop_first() =~= Seq::empty());
    assert(handled(Seq::<CmdView>::empty()) =~= Seq::empty());
    assert(handled(seq![c]) =~= seq![c]);
}

proof fn lemma_handled_first(cmds: Seq<CmdView>)
    requires
        cmds.len() > 0,
    ensures
        handled(cmds).len() > 0,
        supersedable(handled(cmds)[0]) == supersedable(cmds[0]),
    decreases cmds.len(),
{
    if cmds.len() > 1 && supersedable(cmds[0]) && supersedable(cmds[1]) {
        lemma_handled_first(cmds.drop_first());
    }
}

impl PlayerCmd {
    /// Whether a newer playback request replaces this one.
    pub fn is_supersedable(&self) -> (b: bool)
        ensures
            b == supersedable(self@),
    {
        match self {
            PlayerCmd::Audition(_) => true,
            PlayerCmd::Preview(_) => true,
            _ => false,
        }
    }

    /// Whether mpv's position and pause state are to be read back first.
    pub fn needs_readback(&self) -> (b: bool)
        ensures
            b == (self@ matches CmdView::Preview { seek, .. } && seek is Resume),
    {
        match self {
            PlayerCmd::Preview(p) => match p.seek {
                PreviewSeek::Resume { .. } => true,
                _ => false,
            },
            _ => false,
        }
    }
}

/// One step of draining the queue: given a request and the one that follows it
/// there, if any, the request to handle now, if any, and the one to go on with.
pub fn supersede(cmd: PlayerCmd, next: Option<PlayerCmd>) -> (r: (
    Option<PlayerCmd>,
    Option<PlayerCmd>,
))
    ensures
        match next {
            Some(n) => if supersedable(cmd@) && supersedable(n@) {
                r.0 is None && r.1 is Some && r.1->0@ == n@
            } else {
                r.0 is Some && r.0->0@ == cmd@ && r.1 is Some && r.1->0@ == n@
            },
            None => r.0 is Some && r.0->0@ == cmd@ && r.1 is None,
        },
{
    match next {
        Some(n) => {
            if cmd.is_supersedable() && n.is_supersedable() {
                (None, Some(n))
            } else {
                (Some(cmd), Some(n))
            }
        },
        None => (Some(cmd), None),
    }
}

// --------------------------------------------------------------------- machine

fn text(s: &str) -> (a: Arg)
    ensures
        a@ == ArgView::Text(s@),
{
    Arg::Text(s.to_owned())
}

fn push_step(steps: &mut Vec<Step>, step: Step)
    ensures
        step_views(final(steps)@) == step_views(old(steps)@).push(step@),
{
    let ghost before = step_views(steps@);
    let ghost added = step@;
    steps.push(step);
    assert(step_views(steps@) =~= before.push(added));
}

fn send_three(steps: &mut Vec<Step>, a: Arg, b: Arg, c: Arg)
    ensures
        step_views(final(steps)@) == step_views(old(steps)@).push(
            StepView::Send(seq![a@, b@, c@]),
        ),
{
    let ghost views = seq![a@, b@, c@];
    let mut args: Vec<Arg> = Vec::new();
    args.push(a);
    args.push(b);
    args.push(c);
    assert(arg_views(args@) =~= views);
    push_step(steps, Step::Send(args));
}

fn send_set(steps: &mut Vec<Step>, name: &str, v: Arg)
    ensures
        step_views(final(steps)@) == step_views(old(steps)@).push(set_property(name@, v@)),
{
    send_three(steps, text("set_property"), text(name), v);
}

fn push_clear_loop(steps: &mut Vec<Step>)
    ensures
        step_views(final(steps)@) == step_views(old(steps)@) + clear_loop(),
{
    let ghost before = step_views(steps@);
    send_set(steps, "ab-loop-a", text("no"));
    send_set(steps, "ab-loop-b", text("no"));
    assert(step_views(steps@) =~= before + clear_loop());
}

/// What starts a job whose file is loaded.
pub fn start_playback(job: &Job) -> (steps: Vec<Step>)
    requires
        job@.wf(),
    ensures
        step_views(steps@) == start_steps(job@),
{
    let mut steps: Vec<Step> = Vec::new();
    assert(step_views(steps@) =~= Seq::empty());
    let end: i128 = match job.end {
        Some(t) => t,
        None => 0,
    };
    if job.looped {
        send_set(&mut steps, "ab-loop-a", Arg::Time(job.start));
        send_set(&mut steps, "ab-loop-b", Arg::Time(end));
    } else {
        push_clear_loop(&mut steps);
    }
    assert(step_views(steps@) =~= loop_steps(job@));
    send_three(&mut steps, text("seek"), Arg::Time(job.start), text("absolute+exact"));
    push_step(&mut steps, Step::StartClock);
    send_set(&mut steps, "pause", Arg::Flag(job.start_paused));
    push_step(
        &mut steps,
        Step::Tell(
            PlayerUpdate::Playing {
                label: job.label.clone(),
                looped: job.looped,
                seek_ms: None,
            },
        ),
    );
    assert(step_views(steps@) =~= start_steps(job@));
    steps
}

fn resume_position(pos: &Option<Json>, max: i128) -> (t: i128)
    ensures
        t == resume_at(json_view(*pos), max as int),
{
    let t: i128 = match crate::json::as_quantity(pos) {
        Some(Real::Nano(n)) => n as i128,
        _ => 0,
    };
    if t < 0 {
        0
    } else if t > max {
        max
    } else {
        t
    }
}

impl Job {
    /// The job of an audition.
    pub fn audition(a: Audition) -> (job: Job)
        ensures
            job@ == job_of(PlayerCmd::Audition(a)@, None, None),
    {
        Job {
            target: a.master_path,
            start: a.start,
            end: Some(a.end),
            looped: a.looped,
            start_paused: false,
            label: a.label,
        }
    }

    /// The job of a preview, given what mpv reports of its position and pause
    /// state.
    pub fn preview(p: Preview, pos: &Option<Json>, paused: &Option<Json>) -> (job: Job)
        ensures
            job@ == job_of(PlayerCmd::Preview(p)@, json_view(*pos), json_view(*paused)),
    {
        let (start, end, start_paused): (i128, Option<i128>, bool) = match p.seek {
            PreviewSeek::Resume { max } => (
                resume_position(pos, max),
                None,
                crate::json::is_true(paused),
            ),
            PreviewSeek::From(t) => (t, None, false),
            PreviewSeek::Window { start, end } => (start, Some(end), false),
        };
        Job { target: p.uri, start, end, looped: false, start_paused, label: "preview".to_owned() }
    }
}

impl Player {
    /// Nothing loaded, nothing to play.
    pub fn new() -> (p: Player)
        ensures
            p@ == (PlayerView { current: None, phase: PhaseView::Idle }),
            p@.wf(),
    {
        Player { current: None, phase: Phase::Idle }
    }

    /// The first steps: observe position and end of file, report ready.
    pub fn startup(version: String) -> (steps: Vec<Step>)
        ensures
            step_views(steps@) == seq![
                StepView::Send(
                    seq![
                        ArgView::Text("observe_property"@),
                        ArgView::Number(TIME_POS_ID as int),
                        ArgView::Text("time-pos"@),
                    ],
                ),
                StepView::Send(
                    seq![
                        ArgView::Text("observe_property"@),
                        ArgView::Number(EOF_ID as int),
                        ArgView::Text("eof-reached"@),
                    ],
                ),
                StepView::Tell(UpdateView::Ready { version: version@ }),
            ],
    {
        let mut steps: Vec<Step> = Vec::new();
        assert(step_views(steps@) =~= Seq::empty());
        send_three(&mut steps, text("observe_property"), Arg::Number(TIME_POS_ID), text("time-pos"));
        send_three(&mut steps, text("observe_property"), Arg::Number(EOF_ID), text("eof-reached"));
        push_step(&mut steps, Step::Tell(PlayerUpdate::Ready { version }));
        steps
    }

    /// Takes a request. For one that needs a readback, `pos` and `paused` are
    /// what mpv reports of `time-pos` and `pause`, where it answers.
    pub fn handle_cmd(&mut self, cmd: PlayerCmd, pos: &Option<Json>, paused: &Option<Json>) -> (steps:
        Vec<Step>)
        requires
            old(self)@.wf(),
        ensures
            step_views(steps@) == cmd_steps(
                old(self)@,
                cmd@,
                json_view(*pos),
                json_view(*paused),
            ),
            final(self)@ == after_cmd(old(self)@, cmd@, json_view(*pos), json_view(*paused)),
            final(self)@.wf(),
    {
        let ghost before = self@;
        let mut steps: Vec<Step> = Vec::new();
        assert(step_views(steps@) =~= Seq::empty());
        let job: Job = match cmd {
            PlayerCmd::Stop => {
                send_set(&mut steps, "pause", Arg::Flag(true));
                push_clear_loop(&mut steps);
                self.phase = Phase::Idle;
                push_step(&mut steps, Step::Tell(PlayerUpdate::Stopped));
                assert(step_views(steps@) =~= cmd_steps(
                    before,
                    CmdView::Stop,
                    json_view(*pos),
                    json_view(*paused),
                ));
                return steps;
            },
            PlayerCmd::TogglePause => {
                if self.current.is_some() {
                    let mut args: Vec<Arg> = Vec::new();
                    args.push(text("cycle"));
                    args.push(text("pause"));
                    assert(arg_views(args@) =~= seq![
                        ArgView::Text("cycle"@),
                        ArgView::Text("pause"@),
                    ]);
                    push_step(&mut steps, Step::Send(args));
                }
                return steps;
            },
            PlayerCmd::Audition(audition) => Job::audition(audition),
            PlayerCmd::Preview(preview) => Job::preview(preview, pos, paused),
        };
        let ghost view = job@;
        assert(view == job_of(cmd@, json_view(*pos), json_view(*paused)));
        send_set(&mut steps, "pause", Arg::Flag(true));
        let loaded: bool = match &self.current {
            Some(file) => same(file.as_str(), job.target.as_str()),
            None => false,
        };
        if loaded {
            let mut more: Vec<Step> = start_playback(&job);
            let ghost tail = more@;
            let ghost head = steps@;
            steps.append(&mut more);
            assert(step_views(steps@) =~= step_views(head) + step_views(tail));
            self.phase = Phase::Seeking(job);
        } else {
            send_three(&mut steps, text("loadfile"), text(job.target.as_str()), text("replace"));
            self.current = Some(job.target.clone());
            self.phase = Phase::Loading(job);
        }
        assert(step_views(steps@) =~= cmd_steps(before, cmd@, json_view(*pos), json_view(*paused)));
        steps
    }

    /// Takes an event of mpv, `elapsed` milliseconds after the seek clock was
    /// started. That mpv is gone ends the player.
    pub fn on_event(&mut self, event: MpvEvent, elapsed: u64) -> (r: Result<Vec<Step>, String>)
        requires
            old(self)@.wf(),
        ensures
            final(self)@ == after_event(old(self)@, event@),
            final(self)@.wf(),
            match r {
                Err(e) => event@ is Disconnected && e@ == "mpv exited"@,
                Ok(steps) => !(event@ is Disconnected) && step_views(steps@) == event_steps(
                    old(self)@,
                    event@,
                    elapsed,
                ),
            },
    {
        let ghost before = self@;
        let mut steps: Vec<Step> = Vec::new();
        assert(step_views(steps@) =~= Seq::empty());
        match event {
            MpvEvent::Disconnected => {
                return Err("mpv exited".to_owned());
            },
            MpvEvent::FileLoaded => {
                let mut phase: Phase = Phase::Idle;
                std::mem::swap(&mut self.phase, &mut phase);
                if let Phase::Loading(job) = phase {
                    steps = start_playback(&job);
                    self.phase = Phase::Seeking(job);
                }
            },
            MpvEvent::PlaybackRestart => {
                let mut phase: Phase = Phase::Idle;
                std::mem::swap(&mut self.phase, &mut phase);
                if let Phase::Seeking(job) = phase {
                    push_step(
                        &mut steps,
                        Step::Tell(
                            PlayerUpdate::Playing {
                                label: job.label.clone(),
                                looped: job.looped,
                                seek_ms: Some(elapsed),
                            },
                        ),
                    );
                    self.phase = Phase::Playing(job);
                }
            },
            MpvEvent::PropertyChange { id, data } => {
                if is_finished(&self.phase, id, data) {
                    send_set(&mut steps, "pause", Arg::Flag(true));
                    self.phase = Phase::Idle;
                    push_step(&mut steps, Step::Tell(PlayerUpdate::Done));
                }
            },
        }
        assert(step_views(steps@) =~= event_steps(before, event@, elapsed));
        Ok(steps)
    }
}

fn is_finished(phase: &Phase, id: u64, data: Json) -> (b: bool)
    ensures
        b == finishes(phase@, id as int, data@),
{
    match phase {
        Phase::Playing(job) => {
            if job.looped {
                return false;
            }
            if id == TIME_POS_ID {
                if let Some(end) = job.end {
                    return match crate::json::as_quantity(&Some(data)) {
                        Some(Real::Nano(t)) => end <= t as i128 + END_SLACK,
                        Some(Real::Infinity) => true,
                        _ => false,
                    };
                }
            }
            if id == EOF_ID {
                return crate::json::is_true(&Some(data));
            }
            false
        },
        _ => false,
    }
}

/// What a job sends once its file is loaded: the loop from its start to its end
/// where it is looped, else no loop; then an exact seek to its start, and the pause
/// state last of what is sent.
pub proof fn law_jobs_seek_exactly(job: JobView)
    requires
        job.looped ==> job.end is Some,
    ensures
        ({
            let steps = start_steps(job);
            let sets = |i: int, name: Seq<char>, v: ArgView|
                steps[i] == StepView::Send(
                    seq![ArgView::Text("set_property"@), ArgView::Text(name), v],
                );
            &&& steps.len() == 6
            &&& job.looped ==> sets(0, "ab-loop-a"@, ArgView::Time(job.start))
            &&& job.looped ==> sets(1, "ab-loop-b"@, ArgView::Time(job.end->0))
            &&& !job.looped ==> sets(0, "ab-loop-a"@, ArgView::Text("no"@))
            &&& !job.looped ==> sets(1, "ab-loop-b"@, ArgView::Text("no"@))
            &&& steps[2] == StepView::Send(
                seq![
                    ArgView::Text("seek"@),
                    ArgView::Time(job.start),
                    ArgView::Text("absolute+exact"@),
                ],
            )
            &&& steps[3] == StepView::StartClock
            &&& sets(4, "pause"@, ArgView::Flag(job.start_paused))
            &&& steps[5] == StepView::Tell(
                UpdateView::Playing { label: job.label, looped: job.looped, seek_ms: None },
            )
        }),
{
}

/// The job of an audition plays its window of the master; that of a preview plays
/// from where it was asked to, and ends early only where a window was asked for.
/// Only a resumed preview may begin paused, and does where mpv was.
pub proof fn law_jobs_play_what_was_asked(
    target: Seq<char>,
    start: int,
    end: int,
    looped: bool,
    label: Seq<char>,
    from: i128,
    to: i128,
    pos: Option<JsonView>,
    paused: Option<JsonView>,
)
    ensures
        job_of(CmdView::Audition { master_path: target, start, end, looped, label }, pos, paused)
            == (JobView { target, start, end: Some(end), looped, start_paused: false, label }),
        ({
            let job = |seek: PreviewSeek|
                job_of(CmdView::Preview { uri: target, seek }, pos, paused);
            let window = job(PreviewSeek::Window { start: from, end: to });
            let onward = job(PreviewSeek::From(from));
            let resumed = job(PreviewSeek::Resume { max: to });
            &&& window.target == target && onward.target == target && resumed.target == target
            &&& window.start == from && window.end == Some(to as int)
            &&& onward.start == from && onward.end is None
            &&& resumed.end is None
            &&& !window.looped && !onward.looped && !resumed.looped
            &&& !window.start_paused && !onward.start_paused
            &&& resumed.start_paused <==> paused == Some(JsonView::Bool(true))
            &&& quantity_of(pos) matches Some(Real::Nano(t)) ==> (0 <= t <= to ==> resumed.start
                == t) && (t < 0 && 0 <= to ==> resumed.start == 0) && (0 <= t && t > to
                ==> resumed.start == to)
            &&& pos is None && 0 <= to ==> resumed.start == 0
        }),
{
}

/// A request pauses first. On the file that mpv has it seeks at once; any other file
/// is loaded in its place, and the job waits for it. A stop clears the loop and is
/// told; a toggle is sent only where there is a file.
pub proof fn law_requests_pause_and_load(
    s: PlayerView,
    cmd: CmdView,
    pos: Option<JsonView>,
    paused: Option<JsonView>,
)
    ensures
        ({
            let steps = cmd_steps(s, cmd, pos, paused);
            let end = after_cmd(s, cmd, pos, paused);
            let pause = StepView::Send(
                seq![
                    ArgView::Text("set_property"@),
                    ArgView::Text("pause"@),
                    ArgView::Flag(true),
                ],
            );
            let job = job_of(cmd, pos, paused);
            &&& cmd is Audition || cmd is Preview ==> steps[0] == pause && end.current == Some(
                job.target,
            )
            &&& (cmd is Audition || cmd is Preview) && s.current == Some(job.target) ==> steps
                == seq![pause] + start_steps(job) && end.phase == PhaseView::Seeking(job)
            &&& (cmd is Audition || cmd is Preview) && s.current != Some(job.target) ==> steps
                == seq![
                pause,
                StepView::Send(
                    seq![
                        ArgView::Text("loadfile"@),
                        ArgView::Text(job.target),
                        ArgView::Text("replace"@),
                    ],
                ),
            ] && end.phase == PhaseView::Loading(job)
            &&& cmd is Stop ==> steps.len() == 4 && steps[0] == pause && steps[3] == StepView::Tell(
                UpdateView::Stopped,
            ) && end.phase is Idle && end.current == s.current
            &&& cmd is TogglePause ==> end == s && steps.len() == if s.current is Some {
                1int
            } else {
                0
            }
        }),
{
    let job = job_of(cmd, pos, paused);
    if (cmd is Audition || cmd is Preview) && s.current != Some(job.target) {
        assert(cmd_steps(s, cmd, pos, paused).len() == 2);
    }
}

/// A window that is not looped is done once the position is within five
/// milliseconds of its end, and any job that is not looped at the end of the file;
/// then mpv is paused and it is told. Nothing else ends a job.
pub proof fn law_jobs_end_at_their_end(s: PlayerView, job: JobView, t: i64, elapsed: u64)
    requires
        s.phase == PhaseView::Playing(job),
    ensures
        ({
            let at = |id: int, data: JsonView|
                after_event(s, MpvEventView::PropertyChange { id, data });
            let said = |id: int, data: JsonView|
                event_steps(s, MpvEventView::PropertyChange { id, data }, elapsed);
            &&& forall|data: JsonView|
                #[trigger] data.quantity() == Some(Real::Nano(t)) ==> {
                    &&& at(1, data).phase is Idle <==> !job.looped && job.end is Some && t
                        >= job.end->0 - 5_000_000
                    &&& at(1, data).phase is Idle || at(1, data) == s
                }
            &&& at(2, JsonView::Bool(true)).phase is Idle <==> !job.looped
            &&& at(2, JsonView::Bool(false)) == s
            &&& !job.looped ==> said(2, JsonView::Bool(true)).len() == 2 && said(
                2,
                JsonView::Bool(true),
            )[0] == StepView::Send(
                seq![
                    ArgView::Text("set_property"@),
                    ArgView::Text("pause"@),
                    ArgView::Flag(true),
                ],
            ) && said(2, JsonView::Bool(true))[1] == StepView::Tell(UpdateView::Done)
        }),
{
}

/// A loaded file is sought in, and a seek that arrived is playing; it is told with
/// the time that it took.
pub proof fn law_jobs_are_loaded_then_sought_then_played(
    s: PlayerView,
    job: JobView,
    elapsed: u64,
)
    ensures
        s.phase == PhaseView::Loading(job) ==> after_event(s, MpvEventView::FileLoaded).phase
            == PhaseView::Seeking(job) && event_steps(s, MpvEventView::FileLoaded, elapsed)
            == start_steps(job),
        s.phase == PhaseView::Seeking(job) ==> after_event(s, MpvEventView::PlaybackRestart).phase
            == PhaseView::Playing(job) && event_steps(s, MpvEventView::PlaybackRestart, elapsed)
            == seq![
            StepView::Tell(
                UpdateView::Playing {
                    label: job.label,
                    looped: job.looped,
                    seek_ms: Some(elapsed),
                },
            ),
        ],
        after_event(s, MpvEventView::FileLoaded).current == s.current,
        after_event(s, MpvEventView::PlaybackRestart).current == s.current,
{
}

} // verus!
