//! The mpv side of playback: JSON IPC lines, request bookkeeping, and the
//! slave's start.
//!
//! Replies are correlated by `request_id`, never by message order; events the
//! player consumes are forwarded and everything else is dropped;
//! `playback-restart` is the seek-done signal.
use crate::edl::compile::{byte_len, lemma_dec_is_unbroken, lemma_padded_is_unbroken};
use crate::json::{
    as_text, as_unsigned, json_string, json_value, json_view, parse_json, string_json, text_of,
    unsigned_of, value_at, Json, JsonView,
};
use crate::number::{push_seconds, seconds_text, trimmed};
use crate::parse::{digits_end, parse_unsigned, unsigned};
use crate::path::{join_path, joined_path};
use crate::text::{
    chars_of, dec, push_arg, push_dec, same, slice_chars, split, split_on,
    strip_prefix, texts, trim_front, without_prefix,
};
use crate::tui::player::{arg_views, Arg, ArgView};
use std::collections::HashSet;
use vstd::prelude::*;
use vstd::string::StringExecFns;

verus! {

broadcast use vstd::std_specs::hash::group_hash_axioms;

/// The oldest mpv that plays the EDL format as it is compiled here.
pub const VERSION_FLOOR: (u64, u64) = (0, 38);

/// The mpv events the player consumes.
#[derive(Debug)]
pub enum MpvEvent {
    FileLoaded,
    /// Playback (re)started after a seek or file load: the seek-done signal.
    PlaybackRestart,
    /// An observed property changed; `id` is the observation's id.
    PropertyChange { id: u64, data: Json },
    /// The connection closed: mpv exited or crashed.
    Disconnected,
}

/// An mpv event, as a value.
pub enum MpvEventView {
    FileLoaded,
    PlaybackRestart,
    PropertyChange { id: int, data: JsonView },
    Disconnected,
}

impl View for MpvEvent {
    type V = MpvEventView;

    open spec fn view(&self) -> MpvEventView {
        match self {
            MpvEvent::FileLoaded => MpvEventView::FileLoaded,
            MpvEvent::PlaybackRestart => MpvEventView::PlaybackRestart,
            MpvEvent::PropertyChange { id, data } => MpvEventView::PropertyChange {
                id: *id as int,
                data: data@,
            },
            MpvEvent::Disconnected => MpvEventView::Disconnected,
        }
    }
}

/// What a line from mpv is.
#[derive(Debug)]
pub enum Incoming {
    /// The reply to a request: its data, or mpv's error.
    Reply { id: u64, result: Result<Json, String> },
    /// An event to forward.
    Event(MpvEvent),
    /// Nothing to act on.
    Nothing,
}

/// What a line from mpv is, as a value.
pub enum IncomingView {
    Reply { id: int, result: Result<JsonView, Seq<char>> },
    Event(MpvEventView),
    Nothing,
}

/// A reply's result, as a value.
pub open spec fn result_view(r: Result<Json, String>) -> Result<JsonView, Seq<char>> {
    match r {
        Ok(j) => Ok(j@),
        Err(e) => Err(e@),
    }
}

impl View for Incoming {
    type V = IncomingView;

    open spec fn view(&self) -> IncomingView {
        match self {
            Incoming::Reply { id, result } => IncomingView::Reply {
                id: *id as int,
                result: result_view(*result),
            },
            Incoming::Event(e) => IncomingView::Event(e@),
            Incoming::Nothing => IncomingView::Nothing,
        }
    }
}

/// The members of a line that matter here.
#[derive(Debug)]
pub struct Members {
    pub request_id: Option<Json>,
    pub error: Option<Json>,
    pub event: Option<Json>,
    pub id: Option<Json>,
    pub data: Option<Json>,
}

/// The members of a line, as values.
pub struct MembersView {
    pub request_id: Option<JsonView>,
    pub error: Option<JsonView>,
    pub event: Option<JsonView>,
    pub id: Option<JsonView>,
    pub data: Option<JsonView>,
}

impl View for Members {
    type V = MembersView;

    open spec fn view(&self) -> MembersView {
        MembersView {
            request_id: json_view(self.request_id),
            error: json_view(self.error),
            event: json_view(self.event),
            id: json_view(self.id),
            data: json_view(self.data),
        }
    }
}

/// The members that a line's text holds.
pub open spec fn members_of(line: Seq<char>) -> MembersView {
    MembersView {
        request_id: json_value(line, "/request_id"@),
        error: json_value(line, "/error"@),
        event: json_value(line, "/event"@),
        id: json_value(line, "/id"@),
        data: json_value(line, "/data"@),
    }
}

/// A line's data: null where it has none.
pub open spec fn data_of(m: MembersView) -> JsonView {
    match m.data {
        Some(d) => d,
        None => JsonView::Null,
    }
}

/// What a line is: a reply where it carries a request id, successful only with
/// the error text `success`; else an event where it names a known one.
pub open spec fn incoming_of(m: MembersView) -> IncomingView {
    match unsigned_of(m.request_id) {
        Some(id) => IncomingView::Reply {
            id,
            result: match text_of(m.error) {
                Some(error) => if error == "success"@ {
                    Ok(data_of(m))
                } else {
                    Err(error)
                },
                None => Err(""@),
            },
        },
        None => match text_of(m.event) {
            None => IncomingView::Nothing,
            Some(event) => if event == "file-loaded"@ {
                IncomingView::Event(MpvEventView::FileLoaded)
            } else if event == "playback-restart"@ {
                IncomingView::Event(MpvEventView::PlaybackRestart)
            } else if event == "property-change"@ {
                match unsigned_of(m.id) {
                    Some(id) => IncomingView::Event(
                        MpvEventView::PropertyChange { id, data: data_of(m) },
                    ),
                    None => IncomingView::Nothing,
                }
            } else {
                IncomingView::Nothing
            },
        },
    }
}

/// Reads the members of a line.
pub fn read_members(line: &str) -> (m: Members)
    ensures
        m@ == members_of(line@),
{
    match parse_json(line) {
        Ok(doc) => Members {
            request_id: value_at(&doc, "/request_id"),
            error: value_at(&doc, "/error"),
            event: value_at(&doc, "/event"),
            id: value_at(&doc, "/id"),
            data: value_at(&doc, "/data"),
        },
        Err(_) => Members { request_id: None, error: None, event: None, id: None, data: None },
    }
}

/// Tells what a line with the given members is.
pub fn interpret(members: Members) -> (r: Incoming)
    ensures
        r@ == incoming_of(members@),
{
    match as_unsigned(&members.request_id) {
        Some(id) => {
            let result: Result<Json, String> = match as_text(&members.error) {
                Some(error) => if same(error, "success") {
                    match members.data {
                        Some(data) => Ok(data),
                        None => Ok(Json::Null),
                    }
                } else {
                    Err(error.to_owned())
                },
                None => Err("".to_owned()),
            };
            Incoming::Reply { id, result }
        },
        None => match as_text(&members.event) {
            None => Incoming::Nothing,
            Some(event) => if same(event, "file-loaded") {
                Incoming::Event(MpvEvent::FileLoaded)
            } else if same(event, "playback-restart") {
                Incoming::Event(MpvEvent::PlaybackRestart)
            } else if same(event, "property-change") {
                match as_unsigned(&members.id) {
                    Some(id) => {
                        let data: Json = match members.data {
                            Some(data) => data,
                            None => Json::Null,
                        };
                        Incoming::Event(MpvEvent::PropertyChange { id, data })
                    },
                    None => Incoming::Nothing,
                }
            } else {
                Incoming::Nothing
            },
        },
    }
}

/// The requests on one connection: ids are handed out in order, and each is
/// outstanding until its reply, its failure to be written, or the end.
#[derive(Debug)]
pub struct Requests {
    next_id: u64,
    pending: HashSet<u64>,
}

/// The requests on one connection, as a value.
#[verifier::ext_equal]
pub struct RequestsView {
    pub next_id: int,
    pub pending: Set<u64>,
}

impl View for Requests {
    type V = RequestsView;

    closed spec fn view(&self) -> RequestsView {
        RequestsView { next_id: self.next_id as int, pending: self.pending@ }
    }
}

impl RequestsView {
    /// Outstanding ids were handed out before.
    pub open spec fn wf(self) -> bool {
        forall|id: u64| self.pending.contains(id) ==> id < self.next_id
    }

    /// After a line: a reply ends the request it names.
    pub open spec fn after(self, incoming: IncomingView) -> RequestsView {
        match incoming {
            IncomingView::Reply { id, .. } => RequestsView {
                pending: self.pending.remove(id as u64),
                ..self
            },
            _ => self,
        }
    }

    /// What is acted on: a reply only where its request is outstanding.
    pub open spec fn delivered(self, incoming: IncomingView) -> IncomingView {
        match incoming {
            IncomingView::Reply { id, .. } => if self.pending.contains(id as u64) {
                incoming
            } else {
                IncomingView::Nothing
            },
            _ => incoming,
        }
    }
}

impl Requests {
    /// A fresh connection: ids count from one.
    pub fn new() -> (r: Requests)
        ensures
            r@ == (RequestsView { next_id: 1, pending: Set::empty() }),
            r@.wf(),
    {
        Requests { next_id: 1, pending: HashSet::new() }
    }

    /// Hands out the next id: a fresh one, until the ids wrap around.
    pub fn begin(&mut self) -> (id: u64)
        ensures
            id == old(self)@.next_id,
            final(self)@ == (RequestsView {
                next_id: if id == u64::MAX {
                    0
                } else {
                    id + 1
                },
                pending: old(self)@.pending.insert(id),
            }),
            old(self)@.wf() ==> !old(self)@.pending.contains(id),
            old(self)@.wf() && id < u64::MAX ==> final(self)@.wf(),
    {
        let id: u64 = self.next_id;
        self.next_id = if id == u64::MAX {
            0
        } else {
            id + 1
        };
        self.pending.insert(id);
        id
    }

    /// Drops a request that was never delivered.
    pub fn abandon(&mut self, id: u64)
        ensures
            final(self)@ == (RequestsView {
                pending: old(self)@.pending.remove(id),
                ..old(self)@
            }),
    {
        self.pending.remove(&id);
    }

    /// Takes what a line is: replies end their requests, and one without an
    /// outstanding request is dropped.
    pub fn settle(&mut self, incoming: Incoming) -> (r: Incoming)
        ensures
            r@ == old(self)@.delivered(incoming@),
            final(self)@ == old(self)@.after(incoming@),
    {
        match incoming {
            Incoming::Reply { id, result } => {
                if self.pending.remove(&id) {
                    Incoming::Reply { id, result }
                } else {
                    assert(self.pending@ =~= old(self).pending@.remove(id));
                    Incoming::Nothing
                }
            },
            other => other,
        }
    }

    /// Takes a line from mpv.
    pub fn receive(&mut self, line: &str) -> (r: Incoming)
        ensures
            r@ == old(self)@.delivered(incoming_of(members_of(line@))),
            final(self)@ == old(self)@.after(incoming_of(members_of(line@))),
    {
        let incoming: Incoming = interpret(read_members(line));
        self.settle(incoming)
    }

    /// The connection closed: no request is outstanding any more.
    pub fn close(&mut self)
        ensures
            final(self)@ == (RequestsView { pending: Set::empty(), ..old(self)@ }),
    {
        self.pending.clear();
    }
}

/// Replies are correlated by request id, not by their order: two replies to
/// different requests are both delivered whichever comes first, and leave the
/// same requests outstanding.
pub proof fn law_replies_correlate_by_id(s: RequestsView, a: IncomingView, b: IncomingView)
    requires
        a is Reply && b is Reply,
        0 <= a->id <= u64::MAX && 0 <= b->id <= u64::MAX,
        a->id != b->id,
        s.pending.contains(a->id as u64) && s.pending.contains(b->id as u64),
    ensures
        s.delivered(a) == a && s.after(a).delivered(b) == b,
        s.delivered(b) == b && s.after(b).delivered(a) == a,
        s.after(a).after(b) == s.after(b).after(a),
{
    assert(s.after(a).after(b) =~= s.after(b).after(a));
}

/// A request is answered at most once.
pub proof fn law_a_reply_is_delivered_once(s: RequestsView, a: IncomingView, b: IncomingView)
    requires
        a is Reply && b is Reply && a->id == b->id,
    ensures
        s.after(a).delivered(b) == IncomingView::Nothing,
{
}

// -------------------------------------------------------------------- requests

/// An argument of a command as JSON text; a time is a number of seconds.
pub open spec fn arg_json(a: ArgView) -> Seq<char> {
    match a {
        ArgView::Text(s) => json_string(s),
        ArgView::Flag(b) => if b {
            "true"@
        } else {
            "false"@
        },
        ArgView::Number(n) => dec(n as nat),
        ArgView::Time(t) => seconds_text(t),
    }
}

/// Arguments as JSON texts, with commas between.
pub open spec fn args_json(args: Seq<ArgView>) -> Seq<char>
    decreases args.len(),
{
    if args.len() == 0 {
        Seq::empty()
    } else if args.len() == 1 {
        arg_json(args[0])
    } else {
        args_json(args.drop_last()) + ","@ + arg_json(args.last())
    }
}

/// A command as JSON text.
pub open spec fn command_json(args: Seq<ArgView>) -> Seq<char> {
    "["@ + args_json(args) + "]"@
}

/// The request that sends a command under an id.
pub open spec fn request_json(args: Seq<ArgView>, id: int) -> Seq<char> {
    "{\"command\":"@ + command_json(args) + ",\"request_id\":"@ + dec(id as nat) + "}"@
}

/// Whether a text is one line.
pub open spec fn one_line(s: Seq<char>) -> bool {
    forall|i: int| 0 <= i < s.len() ==> #[trigger] s[i] != '\n'
}

proof fn lemma_seconds_are_one_line(t: int)
    ensures
        one_line(seconds_text(t)),
{
    let size: nat = if t < 0 {
        (-t) as nat
    } else {
        t as nat
    };
    lemma_dec_is_unbroken(size / 1_000_000_000);
    lemma_trimmed_is_one_line(size % 1_000_000_000, 9);
    reveal_strlit("-");
    reveal_strlit("");
    reveal_strlit(".");
    reveal_strlit("0");
}

proof fn lemma_trimmed_is_one_line(n: nat, width: nat)
    ensures
        one_line(trimmed(n, width)),
    decreases width,
{
    if width > 0 {
        if n % 10 == 0 {
            lemma_trimmed_is_one_line(n / 10, (width - 1) as nat);
        } else {
            lemma_padded_is_unbroken(n, width);
        }
    }
}

fn push_arg_json(out: &mut String, a: &Arg)
    ensures
        final(out)@ == old(out)@ + arg_json(a@),
        one_line(arg_json(a@)),
{
    match a {
        Arg::Text(s) => {
            let quoted: String = string_json(s.as_str());
            out.append(quoted.as_str());
        },
        Arg::Flag(b) => {
            proof {
                reveal_strlit("true");
                reveal_strlit("false");
            }
            if *b {
                out.append("true");
            } else {
                out.append("false");
            }
        },
        Arg::Number(n) => {
            proof {
                lemma_dec_is_unbroken(*n as nat);
            }
            push_dec(out, *n as u128);
        },
        Arg::Time(t) => {
            proof {
                lemma_seconds_are_one_line(*t as int);
            }
            push_seconds(out, *t);
        },
    }
}

/// The text of a command, as it is sent and as a refusal names it.
pub fn command_text(args: &Vec<Arg>) -> (s: String)
    ensures
        s@ == command_json(arg_views(args@)),
        one_line(s@),
{
    let ghost all = arg_views(args@);
    proof {
        reveal_strlit("[");
        reveal_strlit("]");
        reveal_strlit(",");
    }
    let mut s: String = "[".to_owned();
    let mut i: usize = 0;
    assert(all.take(0) =~= Seq::empty());
    assert(s@ =~= "["@ + args_json(all.take(0)));
    while i < args.len()
        invariant
            i <= args@.len(),
            all == arg_views(args@),
            s@ == "["@ + args_json(all.take(i as int)),
            one_line(s@),
            one_line(","@),
        decreases args@.len() - i,
    {
        let ghost next = all.take(i + 1);
        assert(next.drop_last() =~= all.take(i as int));
        if i > 0 {
            s.append(",");
        }
        push_arg_json(&mut s, &args[i]);
        assert(s@ =~= "["@ + args_json(next)) by {
            if i == 0 {
                assert(all.take(0) =~= Seq::empty());
                assert(next[0] == args@[0]@);
            }
        }
        i = i + 1;
    }
    assert(all.take(i as int) =~= all);
    s.append("]");
    s
}

/// The request that sends a command under an id: one line, so that a line feed
/// ends it.
pub fn request_line(args: &Vec<Arg>, id: u64) -> (s: String)
    ensures
        s@ == request_json(arg_views(args@), id as int),
        one_line(s@),
{
    let command: String = command_text(args);
    proof {
        reveal_strlit("{\"command\":");
        reveal_strlit(",\"request_id\":");
        reveal_strlit("}");
        lemma_dec_is_unbroken(id as nat);
    }
    let mut s: String = "{\"command\":".to_owned();
    s.append(command.as_str());
    s.append(",\"request_id\":");
    push_dec(&mut s, id as u128);
    s.append("}");
    s
}

/// What a refused command tells the user.
pub fn rejected(what: &str, error: &str) -> (s: String)
    ensures
        s@ == "mpv rejected "@ + what@ + ": "@ + error@,
{
    let mut s: String = "mpv rejected ".to_owned();
    s.append(what);
    s.append(": ");
    s.append(error);
    s
}

// --------------------------------------------------------------------- version

/// The number that the digits at the start of a text make.
pub open spec fn leading_number(s: Seq<char>) -> Option<int> {
    unsigned(s.take(digits_end(s, 0)), u64::MAX as int)
}

/// Major and minor number of a version text such as `mpv 0.40.0-dirty` or
/// `mpv v0.41.0`.
pub open spec fn version_of(s: Seq<char>) -> Option<(int, int)> {
    let rest = without_prefix(trim_front(without_prefix(s, "mpv"@)), "v"@);
    let parts = split_on(rest, '.');
    if parts.len() < 2 {
        None
    } else {
        match (leading_number(parts[0]), leading_number(parts[1])) {
            (Some(major), Some(minor)) => Some((major, minor)),
            _ => None,
        }
    }
}

fn skip_blanks(s: &Vec<char>) -> (r: Vec<char>)
    ensures
        r@ == trim_front(s@),
{
    let mut i: usize = 0;
    assert(s@.skip(0) =~= s@);
    while i < s.len() && crate::text::is_whitespace(s[i])
        invariant
            i <= s@.len(),
            trim_front(s@) == trim_front(s@.skip(i as int)),
        decreases s@.len() - i,
    {
        assert(s@.skip(i as int).drop_first() =~= s@.skip(i + 1));
        i = i + 1;
    }
    let rest: Vec<char> = slice_chars(s, i, s.len());
    assert(rest@ =~= s@.skip(i as int));
    rest
}

fn parse_leading(s: &Vec<char>) -> (r: Option<u64>)
    ensures
        match leading_number(s@) {
            Some(n) => r == Some(n as u64) && 0 <= n <= u64::MAX,
            None => r is None,
        },
{
    let mut end: usize = 0;
    while end < s.len() && '0' <= s[end] && s[end] <= '9'
        invariant
            end <= s@.len(),
            digits_end(s@, 0) == digits_end(s@, end as int),
        decreases s@.len() - end,
    {
        end = end + 1;
    }
    let digits: Vec<char> = slice_chars(s, 0, end);
    assert(digits@ =~= s@.take(digits_end(s@, 0)));
    parse_unsigned(&digits, u64::MAX)
}

/// Major and minor number out of a version text.
pub fn parse_version(s: &str) -> (r: Option<(u64, u64)>)
    ensures
        match version_of(s@) {
            Some((major, minor)) => r == Some((major as u64, minor as u64)) && 0 <= major
                <= u64::MAX && 0 <= minor <= u64::MAX,
            None => r is None,
        },
{
    let rest: Vec<char> = strip_prefix(&skip_blanks(&strip_prefix(&chars_of(s), "mpv")), "v");
    let parts: Vec<Vec<char>> = split(&rest, '.');
    let ghost views = crate::text::char_views(parts@);
    if parts.len() < 2 {
        return None;
    }
    assert(views[0] == parts@[0]@ && views[1] == parts@[1]@);
    match (parse_leading(&parts[0]), parse_leading(&parts[1])) {
        (Some(major), Some(minor)) => Some((major, minor)),
        _ => None,
    }
}

/// Whether a version is below the floor.
pub open spec fn too_old(version: (int, int)) -> bool {
    version.0 < VERSION_FLOOR.0 || (version.0 == VERSION_FLOOR.0 && version.1 < VERSION_FLOOR.1)
}

/// The version text that mpv reports; `unknown` where it reports none.
pub open spec fn reported_version(raw: JsonView) -> Seq<char> {
    match raw.text() {
        Some(s) => s,
        None => "unknown"@,
    }
}

/// Enforces the version floor on what mpv reports, and returns the version for
/// display. A build whose version does not parse passes: it cannot be older
/// than the floor.
pub fn check_version(raw: Json) -> (r: Result<String, String>)
    ensures
        ({
            let version = reported_version(raw@);
            match version_of(version) {
                Some(v) => if too_old(v) {
                    r is Err && r->Err_0@ == version + " is older than the supported floor "@ + dec(
                        VERSION_FLOOR.0 as nat,
                    ) + "."@ + dec(VERSION_FLOOR.1 as nat)
                } else {
                    r is Ok && r->Ok_0@ == version
                },
                None => r is Ok && r->Ok_0@ == version,
            }
        }),
{
    let version: String = match raw {
        Json::Text(s) => s,
        _ => "unknown".to_owned(),
    };
    match parse_version(version.as_str()) {
        Some((major, minor)) => {
            if major < VERSION_FLOOR.0 || (major == VERSION_FLOOR.0 && minor < VERSION_FLOOR.1) {
                let mut s: String = version;
                s.append(" is older than the supported floor ");
                push_dec(&mut s, VERSION_FLOOR.0 as u128);
                s.append(".");
                push_dec(&mut s, VERSION_FLOOR.1 as u128);
                return Err(s);
            }
            Ok(version)
        },
        None => Ok(version),
    }
}

// ----------------------------------------------------------------------- slave

/// The longest socket path, in bytes, that fits a socket address with headroom.
pub const MAX_SOCKET_PATH: usize = 100;

/// The name of a slave's private directory.
pub open spec fn slave_name(pid: nat, seq: nat) -> Seq<char> {
    "dipho-mpv-"@ + dec(pid) + "-"@ + dec(seq)
}

/// The socket inside a slave's directory.
pub open spec fn socket_in(dir: Seq<char>) -> Seq<char> {
    joined_path(dir, "mpv.sock"@)
}

/// A slave's private directory: in the temporary directory, or in `/tmp` where
/// the socket's path would be too long there.
pub open spec fn slave_dir_of(temp: Seq<char>, pid: nat, seq: nat) -> Seq<char> {
    let dir = joined_path(temp, slave_name(pid, seq));
    if byte_len(socket_in(dir)) > MAX_SOCKET_PATH {
        joined_path("/tmp"@, slave_name(pid, seq))
    } else {
        dir
    }
}

/// A slave's private directory.
pub fn slave_dir(temp: &str, pid: u32, seq: u64) -> (dir: String)
    ensures
        dir@ == slave_dir_of(temp@, pid as nat, seq as nat),
{
    let mut name: String = "dipho-mpv-".to_owned();
    push_dec(&mut name, pid as u128);
    name.append("-");
    push_dec(&mut name, seq as u128);
    let dir: String = join_path(temp, name.as_str());
    let socket: String = join_path(dir.as_str(), "mpv.sock");
    if socket.as_str().len() > MAX_SOCKET_PATH {
        join_path("/tmp", name.as_str())
    } else {
        dir
    }
}

/// The socket inside a slave's directory.
pub fn socket_path(dir: &str) -> (s: String)
    ensures
        s@ == socket_in(dir@),
{
    join_path(dir, "mpv.sock")
}

/// The arguments of a slave: idle, open at the end of a file, no terminal,
/// listening on the socket, then whatever else is asked.
pub open spec fn slave_texts(socket: Seq<char>, extra: Seq<Seq<char>>) -> Seq<Seq<char>> {
    seq![
        "--idle=yes"@,
        "--keep-open=yes"@,
        "--no-terminal"@,
        "--input-ipc-server="@ + socket,
    ] + extra
}

/// The arguments of a slave.
pub fn slave_args(socket: &str, extra: &Vec<String>) -> (argv: Vec<String>)
    ensures
        texts(argv@) == slave_texts(socket@, texts(extra@)),
{
    let mut argv: Vec<String> = Vec::new();
    push_arg(&mut argv, "--idle=yes");
    push_arg(&mut argv, "--keep-open=yes");
    push_arg(&mut argv, "--no-terminal");
    let mut server: String = "--input-ipc-server=".to_owned();
    server.append(socket);
    push_arg(&mut argv, server.as_str());
    assert(texts(argv@) =~= slave_texts(socket@, texts(extra@).take(0)));
    let mut i: usize = 0;
    while i < extra.len()
        invariant
            i <= extra@.len(),
            texts(argv@) =~= slave_texts(socket@, texts(extra@).take(i as int)),
        decreases extra@.len() - i,
    {
        push_arg(&mut argv, extra[i].as_str());
        assert(texts(extra@).take(i + 1) =~= texts(extra@).take(i as int).push(
            texts(extra@)[i as int],
        ));
        i = i + 1;
    }
    assert(texts(extra@).take(i as int) =~= texts(extra@));
    argv
}

/// After a refused connection at startup: why to give up, or none to try again.
/// The slave's own death is told first; otherwise only the deadline ends it.
pub fn give_up(died: &Option<String>, late: bool, error: &str) -> (r: Option<String>)
    ensures
        match died {
            Some(status) => r is Some && r->0@ == "mpv exited during startup ("@ + status@ + ")"@,
            None => if late {
                r is Some && r->0@ == "connecting to mpv socket: "@ + error@
            } else {
                r is None
            },
        },
{
    match died {
        Some(status) => {
            let mut s: String = "mpv exited during startup (".to_owned();
            s.append(status.as_str());
            s.append(")");
            Some(s)
        },
        None => {
            if late {
                let mut s: String = "connecting to mpv socket: ".to_owned();
                s.append(error);
                Some(s)
            } else {
                None
            }
        },
    }
}

// ---------------------------------------------------------------------- laws

/// A line with a request's id is the reply to it: the data where it says
/// `success`, else what it says. One without is an event that is listened for, or
/// nothing.
pub proof fn law_lines_are_replies_or_events(m: MembersView, id: int)
    ensures
        ({
            let data = match m.data {
                Some(d) => d,
                None => JsonView::Null,
            };
            let reply = |result: Result<JsonView, Seq<char>>|
                incoming_of(m) == IncomingView::Reply { id, result };
            let named = |name: Seq<char>| m.event == Some(JsonView::Text(name));
            &&& unsigned_of(m.request_id) == Some(id) && m.error == Some(JsonView::Text("success"@))
                ==> reply(Ok(data))
            &&& forall|e: Seq<char>|
                unsigned_of(m.request_id) == Some(id) && m.error == Some(JsonView::Text(e)) && e
                    != "success"@ ==> #[trigger] reply(Err(e))
            &&& unsigned_of(m.request_id) is None && named("file-loaded"@) ==> incoming_of(m)
                == IncomingView::Event(MpvEventView::FileLoaded)
            &&& unsigned_of(m.request_id) is None && named("playback-restart"@) ==> incoming_of(m)
                == IncomingView::Event(MpvEventView::PlaybackRestart)
            &&& unsigned_of(m.request_id) is None && named("property-change"@) && unsigned_of(m.id)
                == Some(id) ==> incoming_of(m) == IncomingView::Event(
                MpvEventView::PropertyChange { id, data },
            )
            &&& unsigned_of(m.request_id) is None && m.event is None ==> incoming_of(m) is Nothing
        }),
{
    reveal_strlit("file-loaded");
    reveal_strlit("playback-restart");
    reveal_strlit("property-change");
    assert("file-loaded"@.len() == 11);
    assert("playback-restart"@.len() == 16);
    assert("property-change"@.len() == 15);
}

/// A reply that was asked for is delivered and leaves the other requests pending;
/// one that was not is dropped.
pub proof fn law_only_asked_replies_are_delivered(s: RequestsView, incoming: IncomingView, other: u64)
    requires
        incoming is Reply,
        0 <= incoming->id <= u64::MAX,
        other != incoming->id,
    ensures
        s.pending.contains(incoming->id as u64) ==> s.delivered(incoming) == incoming,
        !s.pending.contains(incoming->id as u64) ==> s.delivered(incoming) is Nothing,
        s.after(incoming).pending.contains(other) == s.pending.contains(other),
        !s.after(incoming).pending.contains(incoming->id as u64),
        s.after(incoming).next_id == s.next_id,
{
}

/// The arguments of a command stand in a list, in order, with commas between.
pub proof fn law_commands_list_their_arguments(args: Seq<ArgView>)
    ensures
        args_json(args) == crate::text::joined(args.map_values(|a: ArgView| arg_json(a)), ","@),
    decreases args.len(),
{
    let all = args.map_values(|a: ArgView| arg_json(a));
    if args.len() == 0 {
        crate::text::law_joined_parts(Seq::empty(), Seq::empty(), ","@);
        assert(all =~= Seq::empty());
    } else {
        let before = args.drop_last();
        law_commands_list_their_arguments(before);
        let head = before.map_values(|a: ArgView| arg_json(a));
        assert(all =~= head.push(arg_json(args.last())));
        crate::text::law_joined_parts(head, arg_json(args.last()), ","@);
        if args.len() == 1 {
            assert(all =~= seq![arg_json(args[0])]);
        }
    }
}

/// A version is too old iff it is below 0.38.
pub proof fn law_old_versions_are_refused(major: int, minor: int)
    requires
        0 <= major,
        0 <= minor,
    ensures
        too_old((major, minor)) <==> major == 0 && minor < 38,
{
}

/// A version is read from its two numbers, after the player's name.
pub proof fn law_versions_are_read(major: u64, minor: u64, rest: Seq<char>)
    requires
        !rest.contains('.'),
        rest.len() > 0 ==> !crate::text::ascii_digit(rest[0]),
    ensures
        version_of("mpv "@ + (dec(major as nat) + "."@ + (dec(minor as nat) + rest))) == Some(
            (major as int, minor as int),
        ),
{
    reveal_strlit("mpv ");
    reveal_strlit("mpv");
    reveal_strlit("v");
    reveal_strlit(".");
    let (a, b) = (dec(major as nat), dec(minor as nat) + rest);
    let t = a + "."@ + b;
    let s = "mpv "@ + t;
    crate::text::law_numerals_read_back(major as nat);
    crate::text::law_numerals_read_back(minor as nat);
    assert(crate::text::ascii_digit(a[0]));
    assert(s.take(3) =~= "mpv"@);
    let u = s.skip(3);
    assert(u[0] == ' ');
    assert(u.drop_first() =~= t);
    assert(t[0] == a[0]);
    assert(trim_front(t) == t);
    assert(trim_front(u) == t);
    assert(t.take(1)[0] == t[0]);
    assert("v"@[0] == 'v');
    assert(without_prefix(t, "v"@) == t);
    lemma_one_point(a, b);
    lemma_leading(major, Seq::empty());
    assert(a + Seq::<char>::empty() =~= a);
    lemma_leading(minor, rest);
}

proof fn lemma_leading(n: u64, rest: Seq<char>)
    requires
        rest.len() > 0 ==> !crate::text::ascii_digit(rest[0]),
    ensures
        leading_number(dec(n as nat) + rest) == Some(n as int),
{
    let d = dec(n as nat);
    let s = d + rest;
    crate::text::law_numerals_read_back(n as nat);
    assert forall|i: int| #![trigger s[i]] 0 <= i < d.len() implies crate::text::ascii_digit(
        s[i],
    ) by {
        assert(s[i] == d[i]);
    }
    crate::parse::lemma_digits_run(s, 0, d.len() as int);
    assert(s.take(d.len() as int) =~= d);
    crate::parse::law_unsigned_numerals_read_back(n as nat, u64::MAX as int);
}

proof fn lemma_one_point(a: Seq<char>, b: Seq<char>)
    requires
        crate::text::all_digits(a),
        !b.contains('.') || exists|n: nat, rest: Seq<char>|
            b == #[trigger] (dec(n) + rest) && !rest.contains('.'),
    ensures
        split_on(a + "."@ + b, '.') == seq![a, b],
    decreases b.len(),
{
    reveal_strlit(".");
    let s = a + "."@ + b;
    if b.len() == 0 {
        assert(s.drop_last() =~= a);
        lemma_no_point(a);
        assert(b =~= Seq::empty());
        assert(s.last() == '.');
        assert(split_on(s, '.') =~= seq![a, b]);
    } else {
        if !(!b.contains('.')) {
            let (n, rest) = choose|n: nat, rest: Seq<char>|
                b == #[trigger] (dec(n) + rest) && !rest.contains('.');
            crate::text::law_numerals_read_back(n);
            let k = choose|k: int| 0 <= k < b.len() && b[k] == '.';
            if k < dec(n).len() {
                assert(crate::text::ascii_digit(dec(n)[k]));
            } else {
                assert(rest[k - dec(n).len()] == '.');
            }
        }
        let c = b.drop_last();
        assert forall|x: char| c.contains(x) implies b.contains(x) by {
            let k = choose|k: int| 0 <= k < c.len() && c[k] == x;
            assert(b[k] == x);
        }
        assert(s.drop_last() =~= a + "."@ + c);
        lemma_one_point(a, c);
        assert(s.last() == b[b.len() - 1]);
        assert(b.contains(b[b.len() - 1]));
        assert(split_on(s, '.') =~= seq![a, b]) by {
            assert(c.push(s.last()) =~= b);
            assert(seq![a, c].drop_last() =~= seq![a]);
            assert(seq![a].push(b) =~= seq![a, b]);
        }
    }
}

proof fn lemma_no_point(a: Seq<char>)
    requires
        crate::text::all_digits(a),
    ensures
        split_on(a, '.') == seq![a],
    decreases a.len(),
{
    if a.len() > 0 {
        let c = a.drop_last();
        assert forall|i: int| #![trigger c[i]] 0 <= i < c.len() implies crate::text::ascii_digit(
            c[i],
        ) by {
            assert(a[i] == c[i]);
        }
        lemma_no_point(c);
        assert(crate::text::ascii_digit(a[a.len() - 1]));
        assert(c.push(a.last()) =~= a);
        assert(split_on(a, '.') =~= seq![a]);
    } else {
        assert(a =~= Seq::empty());
        assert(split_on(a, '.') =~= seq![a]);
    }
}

/// The player's socket stands in its own directory under the temporary one, or,
/// where that path would be longer than a hundred bytes, under `/tmp`.
pub proof fn law_long_socket_paths_go_to_tmp(temp: Seq<char>, pid: nat, seq: nat)
    ensures
        ({
            let name = "dipho-mpv-"@ + dec(pid) + "-"@ + dec(seq);
            let own = joined_path(temp, name);
            slave_dir_of(temp, pid, seq) == if byte_len(joined_path(own, "mpv.sock"@)) <= 100 {
                own
            } else {
                joined_path("/tmp"@, name)
            }
        }),
{
}

/// A request is one object: the list of its arguments, and its id as a numeral.
pub proof fn law_requests_hold_their_command_and_id(args: Seq<ArgView>, id: u64)
    ensures
        request_json(args, id as int) == "{\"command\":["@ + crate::text::joined(
            args.map_values(|a: ArgView| arg_json(a)),
            ","@,
        ) + "],\"request_id\":"@ + dec(id as nat) + "}"@,
        arg_json(ArgView::Flag(true)) == "true"@,
        arg_json(ArgView::Flag(false)) == "false"@,
        arg_json(ArgView::Time(id as int)) == seconds_text(id as int),
{
    law_commands_list_their_arguments(args);
    reveal_strlit("{\"command\":[");
    reveal_strlit("{\"command\":");
    reveal_strlit("[");
    reveal_strlit("]");
    reveal_strlit("],\"request_id\":");
    reveal_strlit(",\"request_id\":");
    assert("{\"command\":["@ =~= "{\"command\":"@ + "["@);
    assert("],\"request_id\":"@ =~= "]"@ + ",\"request_id\":"@);
    assert(request_json(args, id as int) =~= "{\"command\":["@ + crate::text::joined(
        args.map_values(|a: ArgView| arg_json(a)),
        ","@,
    ) + "],\"request_id\":"@ + dec(id as nat) + "}"@);
}

/// A player is started idle, kept open at the end of a file, without a terminal, on
/// its own socket, and with what else was asked for.
pub proof fn law_players_listen_on_their_socket(socket: Seq<char>, extra: Seq<Seq<char>>, i: int)
    requires
        0 <= i < extra.len(),
    ensures
        ({
            let argv = slave_texts(socket, extra);
            &&& argv.len() == 4 + extra.len()
            &&& argv.contains("--idle=yes"@)
            &&& argv.contains("--keep-open=yes"@)
            &&& argv.contains("--no-terminal"@)
            &&& argv[3] == "--input-ipc-server="@ + socket
            &&& argv[4 + i] == extra[i]
        }),
{
    let argv = slave_texts(socket, extra);
    assert(argv[0] == "--idle=yes"@ && argv[1] == "--keep-open=yes"@ && argv[2]
        == "--no-terminal"@);
}

} // verus!
