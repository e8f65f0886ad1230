//! The order of an ingest: what is done next, given what was found. Every stage
//! that already produced its output is skipped.
use super::normalize::is_normalized;
use super::{already_ingested, corpus_dir, corpus_dir_of, loaded, loaded_of, workdir, workdir_of};
use crate::corpus::loader::LoadReport;
use crate::text::{signed_dec, texts};
use vstd::prelude::*;
use vstd::string::StringExecFns;

verus! {

/// What is to be done next.
#[derive(Debug)]
pub enum Task {
    /// Create the corpus's directory, open and migrate the corpus, and look the
    /// origin id up in it.
    LookUp { dir: String },
    /// Create the work directory, and see whether the original is in it.
    Prepare { workdir: String },
    /// Bring the original into the work directory.
    Fetch,
    /// See which outputs of the normalization are in the work directory.
    Inspect,
    /// Create the playback master and the analysis wav.
    Normalize,
    /// Read the record of an earlier normalization.
    Resume,
    /// Run the sidecar.
    Analyze,
    /// Load what the sidecar wrote into the corpus.
    Load,
    /// Nothing more.
    Finish,
}

/// What is to be done next, as a value.
pub enum TaskView {
    LookUp { dir: Seq<char> },
    Prepare { workdir: Seq<char> },
    Fetch,
    Inspect,
    Normalize,
    Resume,
    Analyze,
    Load,
    Finish,
}

impl View for Task {
    type V = TaskView;

    open spec fn view(&self) -> TaskView {
        match self {
            Task::LookUp { dir } => TaskView::LookUp { dir: dir@ },
            Task::Prepare { workdir } => TaskView::Prepare { workdir: workdir@ },
            Task::Fetch => TaskView::Fetch,
            Task::Inspect => TaskView::Inspect,
            Task::Normalize => TaskView::Normalize,
            Task::Resume => TaskView::Resume,
            Task::Analyze => TaskView::Analyze,
            Task::Load => TaskView::Load,
            Task::Finish => TaskView::Finish,
        }
    }
}

/// What came of the last task.
#[derive(Debug, Clone, Copy, PartialEq, Eq, Structural)]
pub enum Outcome {
    /// The origin id is known; nothing is done yet.
    Identified,
    /// The id of the source in the corpus, where it was ingested before.
    Found(Option<i64>),
    /// The work directory is there; whether it holds the original.
    Prepared { original: bool },
    Fetched,
    /// Whether the master, the wav and the record are there.
    Inspected { master: bool, wav: bool, record: bool },
    /// The master's record is at hand, new or read.
    Normalized,
    Analyzed,
    Loaded(LoadReport),
}

/// What an ingest is of.
#[derive(Debug)]
pub struct Ingest {
    /// The corpus database.
    pub db: String,
    pub origin_id: String,
    /// Whether a known source is ingested again.
    pub force: bool,
}

/// What an ingest of an origin tells and does after an outcome.
pub open spec fn next_of(
    db: Seq<char>,
    origin_id: Seq<char>,
    force: bool,
    outcome: Outcome,
) -> (Seq<Seq<char>>, TaskView) {
    match outcome {
        Outcome::Identified => (
            seq!["origin_id: "@ + origin_id],
            TaskView::LookUp { dir: corpus_dir_of(db) },
        ),
        Outcome::Found(found) => if found is Some && !force {
            (
                seq![
                    "already ingested as source "@ + signed_dec(found->0 as int)
                        + " — use --force to re-ingest"@,
                ],
                TaskView::Finish,
            )
        } else {
            (Seq::empty(), TaskView::Prepare { workdir: workdir_of(db, origin_id) })
        },
        Outcome::Prepared { original } => if original {
            (seq!["  original     cached"@], TaskView::Inspect)
        } else {
            (seq!["  fetching original..."@], TaskView::Fetch)
        },
        Outcome::Fetched => (Seq::empty(), TaskView::Inspect),
        Outcome::Inspected { master, wav, record } => if master && wav && record {
            (seq!["  master       cached"@], TaskView::Resume)
        } else {
            (
                seq!["  normalizing (playback master + analysis wav)..."@],
                TaskView::Normalize,
            )
        },
        Outcome::Normalized => (Seq::empty(), TaskView::Analyze),
        Outcome::Analyzed => (Seq::empty(), TaskView::Load),
        Outcome::Loaded(report) => (seq![loaded_of(report)], TaskView::Finish),
    }
}

fn one(line: String) -> (lines: Vec<String>)
    ensures
        texts(lines@) == seq![line@],
{
    let mut lines: Vec<String> = Vec::new();
    lines.push(line);
    assert(texts(lines@) =~= seq![line@]);
    lines
}

fn silent() -> (lines: Vec<String>)
    ensures
        texts(lines@) == Seq::<Seq<char>>::empty(),
{
    let lines: Vec<String> = Vec::new();
    assert(texts(lines@) =~= Seq::empty());
    lines
}

impl Ingest {
    /// What is told and done after an outcome.
    pub fn next(&self, outcome: &Outcome) -> (r: (Vec<String>, Task))
        ensures
            texts(r.0@) == next_of(self.db@, self.origin_id@, self.force, *outcome).0,
            r.1@ == next_of(self.db@, self.origin_id@, self.force, *outcome).1,
    {
        match outcome {
            Outcome::Identified => {
                let mut s: String = "origin_id: ".to_owned();
                s.append(self.origin_id.as_str());
                (one(s), Task::LookUp { dir: corpus_dir(self.db.as_str()) })
            },
            Outcome::Found(found) => {
                match already_ingested(*found, self.force) {
                    Some(message) => (one(message), Task::Finish),
                    None => {
                        let workdir: String = workdir(self.db.as_str(), self.origin_id.as_str());
                        (silent(), Task::Prepare { workdir })
                    },
                }
            },
            Outcome::Prepared { original } => {
                if *original {
                    (one("  original     cached".to_owned()), Task::Inspect)
                } else {
                    (one("  fetching original...".to_owned()), Task::Fetch)
                }
            },
            Outcome::Fetched => (silent(), Task::Inspect),
            Outcome::Inspected { master, wav, record } => {
                if is_normalized(*master, *wav, *record) {
                    (one("  master       cached".to_owned()), Task::Resume)
                } else {
                    (
                        one("  normalizing (playback master + analysis wav)...".to_owned()),
                        Task::Normalize,
                    )
                }
            },
            Outcome::Normalized => (silent(), Task::Analyze),
            Outcome::Analyzed => (silent(), Task::Load),
            Outcome::Loaded(report) => (one(loaded(report)), Task::Finish),
        }
    }
}

/// Ingest of a known origin is over before anything is fetched, unless it is
/// forced.
pub proof fn law_known_origins_are_left_alone(db: Seq<char>, origin_id: Seq<char>, id: i64)
    ensures
        next_of(db, origin_id, false, Outcome::Found(Some(id))).1 == TaskView::Finish,
        next_of(db, origin_id, true, Outcome::Found(Some(id))) == next_of(
            db,
            origin_id,
            false,
            Outcome::Found(None),
        ),
{
}

/// The outcome of a task that was done, where its stages were all there: the
/// original, and the outputs of the normalization.
pub open spec fn all_there(task: TaskView, id: Option<i64>, report: LoadReport) -> Outcome {
    match task {
        TaskView::LookUp { .. } => Outcome::Found(id),
        TaskView::Prepare { .. } => Outcome::Prepared { original: true },
        TaskView::Fetch => Outcome::Fetched,
        TaskView::Inspect => Outcome::Inspected { master: true, wav: true, record: true },
        TaskView::Normalize => Outcome::Normalized,
        TaskView::Resume => Outcome::Normalized,
        TaskView::Analyze => Outcome::Analyzed,
        _ => Outcome::Loaded(report),
    }
}

/// The task after `n` more tasks, each with its output there.
pub open spec fn task_after(
    db: Seq<char>,
    origin_id: Seq<char>,
    force: bool,
    id: Option<i64>,
    report: LoadReport,
    n: nat,
) -> TaskView
    decreases n,
{
    if n == 0 {
        next_of(db, origin_id, force, Outcome::Identified).1
    } else {
        let before = task_after(db, origin_id, force, id, report, (n - 1) as nat);
        if before == TaskView::Finish {
            before
        } else {
            next_of(db, origin_id, force, all_there(before, id, report)).1
        }
    }
}

/// A re-run whose stages all produced their output fetches and normalizes
/// nothing, and comes to its end.
pub proof fn law_finished_stages_are_skipped(
    db: Seq<char>,
    origin_id: Seq<char>,
    force: bool,
    id: Option<i64>,
    report: LoadReport,
    n: nat,
)
    ensures
        task_after(db, origin_id, force, id, report, n) != TaskView::Fetch,
        task_after(db, origin_id, force, id, report, n) != TaskView::Normalize,
        n >= 6 ==> task_after(db, origin_id, force, id, report, n) == TaskView::Finish,
    decreases n,
{
    reveal_with_fuel(task_after, 7);
    if n > 6 {
        law_finished_stages_are_skipped(db, origin_id, force, id, report, (n - 1) as nat);
    }
}

/// The order of an ingest: the origin is looked up, its directory prepared, the
/// original fetched unless it is there, the outputs of the normalization looked
/// for and made unless all three are there, then the sidecar is run, and what it
/// wrote is loaded. Nothing comes after.
pub proof fn law_stages_come_in_order(
    db: Seq<char>,
    origin_id: Seq<char>,
    force: bool,
    original: bool,
    master: bool,
    wav: bool,
    record: bool,
    report: LoadReport,
)
    ensures
        next_of(db, origin_id, force, Outcome::Identified).1 is LookUp,
        next_of(db, origin_id, force, Outcome::Found(None)).1 is Prepare,
        next_of(db, origin_id, force, Outcome::Prepared { original }).1 == if original {
            TaskView::Inspect
        } else {
            TaskView::Fetch
        },
        next_of(db, origin_id, force, Outcome::Fetched).1 == TaskView::Inspect,
        next_of(db, origin_id, force, Outcome::Inspected { master, wav, record }).1 == if master
            && wav && record {
            TaskView::Resume
        } else {
            TaskView::Normalize
        },
        next_of(db, origin_id, force, Outcome::Normalized).1 == TaskView::Analyze,
        next_of(db, origin_id, force, Outcome::Analyzed).1 == TaskView::Load,
        next_of(db, origin_id, force, Outcome::Loaded(report)).1 == TaskView::Finish,
{
}

/// An ingest works in its own directory beside the corpus: its tasks name the
/// corpus's directory, and one under it that the origin id alone tells.
pub proof fn law_work_is_done_beside_the_corpus(db: Seq<char>, origin_id: Seq<char>, force: bool)
    ensures
        next_of(db, origin_id, force, Outcome::Identified).1 == (TaskView::LookUp {
            dir: corpus_dir_of(db),
        }),
        next_of(db, origin_id, force, Outcome::Found(None)).1 == (TaskView::Prepare {
            workdir: crate::path::joined_path(
                crate::path::joined_path(corpus_dir_of(db), "ingest"@),
                super::origin::sanitized(origin_id),
            ),
        }),
{
}

/// A source that was ingested before is prepared again where that is forced.
pub proof fn law_forced_ingests_start_over(db: Seq<char>, origin_id: Seq<char>, id: i64)
    ensures
        next_of(db, origin_id, true, Outcome::Found(Some(id))).1 is Prepare,
        next_of(db, origin_id, false, Outcome::Found(Some(id))).1 is Finish,
{
}

} // verus!
