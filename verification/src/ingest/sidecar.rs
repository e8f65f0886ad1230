//! The sidecar driver: how the sidecar is found and started, and what its
//! progress lines mean. Stage skipping on resume is the sidecar's job; here its
//! progress is surfaced and its terminal record becomes a result.
use crate::json::{
    as_integer, as_text, integer_of, is_true, json_value, json_view, parse_json, text_of, value_at,
    Json, JsonView,
};
use crate::text::{push_arg, push_signed, signed_dec, texts};
use crate::tui::ui::{align_left, align_right, left_aligned, right_aligned};
use vstd::prelude::*;
use vstd::string::StringExecFns;

verus! {

/// The sidecar's project directory: the one that was asked for, else a checkout
/// in the current directory, else the one the program was built from.
pub fn sidecar_dir(asked: &Option<String>, in_checkout: bool, built_from: &Option<String>) -> (r:
    Result<String, String>)
    ensures
        match asked {
            Some(dir) => r is Ok && r->Ok_0@ == dir@,
            None => if in_checkout {
                r is Ok && r->Ok_0@ == "python"@
            } else {
                match built_from {
                    Some(dir) => r is Ok && r->Ok_0@ == dir@,
                    None => r is Err && r->Err_0@
                        == "cannot find the dipho-ingest sidecar — set DIPHO_SIDECAR_DIR to its uv project dir"@,
                }
            },
        },
{
    match asked {
        Some(dir) => Ok(dir.as_str().to_owned()),
        None => {
            if in_checkout {
                return Ok("python".to_owned());
            }
            match built_from {
                Some(dir) => Ok(dir.as_str().to_owned()),
                None => Err(
                    "cannot find the dipho-ingest sidecar — set DIPHO_SIDECAR_DIR to its uv project dir".to_owned(),
                ),
            }
        },
    }
}

/// The arguments that start the sidecar on a work directory.
pub fn sidecar_args(dir: &str, workdir: &str) -> (argv: Vec<String>)
    ensures
        texts(argv@) == seq![
            "run"@,
            "--project"@,
            dir@,
            "dipho-ingest"@,
            "--workdir"@,
            workdir@,
        ],
{
    let mut argv: Vec<String> = Vec::new();
    push_arg(&mut argv, "run");
    push_arg(&mut argv, "--project");
    push_arg(&mut argv, dir);
    push_arg(&mut argv, "dipho-ingest");
    push_arg(&mut argv, "--workdir");
    push_arg(&mut argv, workdir);
    assert(texts(argv@) =~= seq![
        "run"@,
        "--project"@,
        dir@,
        "dipho-ingest"@,
        "--workdir"@,
        workdir@,
    ]);
    argv
}

/// The members of a progress line.
#[derive(Debug)]
pub struct Progress {
    pub done: Option<Json>,
    pub error: Option<Json>,
    pub error_stage: Option<Json>,
    pub error_message: Option<Json>,
    pub stage: Option<Json>,
    pub pct: Option<Json>,
    pub skipped: Option<Json>,
}

/// The members of a progress line, as values.
pub struct ProgressView {
    pub done: Option<JsonView>,
    pub error: Option<JsonView>,
    pub error_stage: Option<JsonView>,
    pub error_message: Option<JsonView>,
    pub stage: Option<JsonView>,
    pub pct: Option<JsonView>,
    pub skipped: Option<JsonView>,
}

impl View for Progress {
    type V = ProgressView;

    open spec fn view(&self) -> ProgressView {
        ProgressView {
            done: json_view(self.done),
            error: json_view(self.error),
            error_stage: json_view(self.error_stage),
            error_message: json_view(self.error_message),
            stage: json_view(self.stage),
            pct: json_view(self.pct),
            skipped: json_view(self.skipped),
        }
    }
}

/// The members that a line's text holds.
pub open spec fn progress_of(line: Seq<char>) -> ProgressView {
    ProgressView {
        done: json_value(line, "/done"@),
        error: json_value(line, "/error"@),
        error_stage: json_value(line, "/error/stage"@),
        error_message: json_value(line, "/error/message"@),
        stage: json_value(line, "/stage"@),
        pct: json_value(line, "/pct"@),
        skipped: json_value(line, "/skipped"@),
    }
}

/// Reads the members of a progress line.
pub fn read_progress(line: &str) -> (p: Progress)
    ensures
        p@ == progress_of(line@),
{
    match parse_json(line) {
        Ok(doc) => Progress {
            done: value_at(&doc, "/done"),
            error: value_at(&doc, "/error"),
            error_stage: value_at(&doc, "/error/stage"),
            error_message: value_at(&doc, "/error/message"),
            stage: value_at(&doc, "/stage"),
            pct: value_at(&doc, "/pct"),
            skipped: value_at(&doc, "/skipped"),
        },
        Err(_) => Progress {
            done: None,
            error: None,
            error_stage: None,
            error_message: None,
            stage: None,
            pct: None,
            skipped: None,
        },
    }
}

/// What was heard of the sidecar so far.
#[derive(Debug)]
pub struct Sidecar {
    /// It said that it is done.
    pub done: bool,
    /// The last error it reported.
    pub error: Option<String>,
}

/// What was heard of the sidecar, as a value.
pub struct SidecarView {
    pub done: bool,
    pub error: Option<Seq<char>>,
}

impl View for Sidecar {
    type V = SidecarView;

    open spec fn view(&self) -> SidecarView {
        SidecarView { done: self.done, error: crate::edl::opt_text(self.error) }
    }
}

/// A text, or another where there is none.
pub open spec fn text_or(s: Option<Seq<char>>, other: Seq<char>) -> Seq<char> {
    match s {
        Some(t) => t,
        None => other,
    }
}

impl SidecarView {
    /// After a line: a done record, an error record, or neither.
    pub open spec fn after(self, p: ProgressView) -> SidecarView {
        if p.done == Some(JsonView::Bool(true)) {
            SidecarView { done: true, ..self }
        } else if p.error == Some(JsonView::Object) {
            SidecarView {
                error: Some(
                    text_or(text_of(p.error_stage), "?"@) + ": "@ + text_or(
                        text_of(p.error_message),
                        "unknown error"@,
                    ),
                ),
                ..self
            }
        } else {
            self
        }
    }
}

/// What a line shows: the progress of a stage, where it is neither a done nor
/// an error record.
pub open spec fn shown(p: ProgressView) -> Option<Seq<char>> {
    if p.done == Some(JsonView::Bool(true)) || p.error == Some(JsonView::Object) {
        None
    } else {
        match (text_of(p.stage), integer_of(p.pct)) {
            (Some(stage), Some(pct)) => Some(
                "  "@ + left_aligned(stage, 12) + " "@ + right_aligned(signed_dec(pct), 3) + "%"@
                    + (if p.skipped == Some(JsonView::Bool(true)) {
                    " (cached)"@
                } else {
                    ""@
                }),
            ),
            _ => None,
        }
    }
}

fn is_object(v: &Option<Json>) -> (b: bool)
    ensures
        b == (json_view(*v) == Some(JsonView::Object)),
{
    match v {
        Some(Json::Object) => true,
        _ => false,
    }
}

impl Sidecar {
    /// Nothing heard yet.
    pub fn new() -> (s: Sidecar)
        ensures
            s@ == (SidecarView { done: false, error: None }),
    {
        Sidecar { done: false, error: None }
    }

    /// Takes the members of a line; returns what to show of it.
    pub fn hear(&mut self, p: &Progress) -> (r: Option<String>)
        ensures
            final(self)@ == old(self)@.after(p@),
            match shown(p@) {
                Some(s) => r is Some && r->0@ == s,
                None => r is None,
            },
    {
        if is_true(&p.done) {
            self.done = true;
            return None;
        }
        if is_object(&p.error) {
            let mut s: String = match as_text(&p.error_stage) {
                Some(stage) => stage.to_owned(),
                None => "?".to_owned(),
            };
            s.append(": ");
            match as_text(&p.error_message) {
                Some(message) => s.append(message),
                None => s.append("unknown error"),
            }
            self.error = Some(s);
            return None;
        }
        match (as_text(&p.stage), as_integer(&p.pct)) {
            (Some(stage), Some(pct)) => {
                let mut number: String = String::new();
                push_signed(&mut number, pct);
                assert(number@ =~= signed_dec(pct as int));
                let mut s: String = "  ".to_owned();
                s.append(align_left(stage, 12).as_str());
                s.append(" ");
                s.append(align_right(number.as_str(), 3).as_str());
                s.append("%");
                s.append(
                    if is_true(&p.skipped) {
                        " (cached)"
                    } else {
                        ""
                    },
                );
                Some(s)
            },
            _ => None,
        }
    }

    /// Takes a line; returns what to show of it. A line that is not JSON is
    /// stray output and means nothing.
    pub fn line(&mut self, line: &str) -> (r: Option<String>)
        ensures
            final(self)@ == old(self)@.after(progress_of(line@)),
            match shown(progress_of(line@)) {
                Some(s) => r is Some && r->0@ == s,
                None => r is None,
            },
    {
        let p: Progress = read_progress(line);
        self.hear(&p)
    }

    /// The outcome once the sidecar has exited: a reported error first, then a
    /// bad status or a missing done record.
    pub fn finish(&self, success: bool, status: &str, log: &str) -> (r: Result<(), String>)
        ensures
            match self@.error {
                Some(error) => r is Err && r->Err_0@ == "sidecar stage failed — "@ + error
                    + "\n  full log: "@ + log@,
                None => if !success || !self@.done {
                    r is Err && r->Err_0@ == "sidecar exited without completing (status "@ + status@
                        + ")\n  full log: "@ + log@
                } else {
                    r is Ok
                },
            },
    {
        match &self.error {
            Some(error) => {
                let mut s: String = "sidecar stage failed — ".to_owned();
                s.append(error.as_str());
                s.append("\n  full log: ");
                s.append(log);
                Err(s)
            },
            None => {
                if !success || !self.done {
                    let mut s: String = "sidecar exited without completing (status ".to_owned();
                    s.append(status);
                    s.append(")\n  full log: ");
                    s.append(log);
                    return Err(s);
                }
                Ok(())
            },
        }
    }
}

// ---------------------------------------------------------------------- laws

/// What was heard stays heard: no line takes back that the sidecar is done or
/// that it failed.
pub proof fn law_what_was_heard_stays(v: SidecarView, p: ProgressView)
    ensures
        v.done ==> v.after(p).done,
        v.error is Some ==> v.after(p).error is Some,
{
}

/// A line that says so makes the sidecar done, an error record makes it failed,
/// and any other line changes nothing; only such a one is shown, where it names a
/// stage and its percentage.
pub proof fn law_lines_mean_one_thing(v: SidecarView, p: ProgressView)
    ensures
        v.after(p).done == (v.done || p.done == Some(JsonView::Bool(true))),
        p.done == Some(JsonView::Bool(true)) || p.error != Some(JsonView::Object) ==> v.after(
            p,
        ).error == v.error,
        p.done != Some(JsonView::Bool(true)) && p.error == Some(JsonView::Object) ==> v.after(
            p,
        ).error is Some,
        shown(p) is Some <==> p.done != Some(JsonView::Bool(true)) && p.error != Some(
            JsonView::Object,
        ) && text_of(p.stage) is Some && integer_of(p.pct) is Some,
{
}

/// A failure is told by the stage and the message of its record.
pub proof fn law_failures_are_told(
    v: SidecarView,
    p: ProgressView,
    stage: Seq<char>,
    message: Seq<char>,
)
    requires
        p.done is None,
        p.error == Some(JsonView::Object),
        p.error_stage == Some(JsonView::Text(stage)),
        p.error_message == Some(JsonView::Text(message)),
    ensures
        v.after(p).error == Some(stage + ": "@ + message),
        v.after(p).done == v.done,
{
    assert(text_of(p.error_stage) == Some(stage));
    assert(text_of(p.error_message) == Some(message));
}

/// Progress is shown by its stage, in twelve columns, and its percentage, in three,
/// and marked where the stage was skipped.
pub proof fn law_progress_is_shown_in_columns(p: ProgressView, stage: Seq<char>, pct: int)
    requires
        p.done is None,
        p.error is None,
        text_of(p.stage) == Some(stage),
        integer_of(p.pct) == Some(pct),
    ensures
        p.skipped is None ==> shown(p) == Some(
            "  "@ + left_aligned(stage, 12) + " "@ + right_aligned(signed_dec(pct), 3) + "%"@,
        ),
        p.skipped == Some(JsonView::Bool(true)) ==> shown(p) == Some(
            "  "@ + left_aligned(stage, 12) + " "@ + right_aligned(signed_dec(pct), 3)
                + "% (cached)"@,
        ),
{
    reveal_strlit("");
    reveal_strlit("%");
    reveal_strlit(" (cached)");
    reveal_strlit("% (cached)");
    assert("% (cached)"@ =~= "%"@ + " (cached)"@);
    if p.skipped is None {
        assert(shown(p)->0 =~= "  "@ + left_aligned(stage, 12) + " "@ + right_aligned(
            signed_dec(pct),
            3,
        ) + "%"@);
    } else if p.skipped == Some(JsonView::Bool(true)) {
        assert(shown(p)->0 =~= "  "@ + left_aligned(stage, 12) + " "@ + right_aligned(
            signed_dec(pct),
            3,
        ) + "% (cached)"@);
    }
}

} // verus!
