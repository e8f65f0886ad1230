//! ffprobe's reports: how they are asked for, and what their JSON texts list.
use crate::edl::opt_text;
use crate::ingest::probe::{Packet, Stream};
use crate::json::{
    as_integer, as_unsigned, at, doc_texts, doc_values, integer_of, json_value, parse_json,
    parsed_json, text_at, text_of, unsigned_of, value_at, Json, JsonView,
};
use crate::text::{dec, push_arg, push_dec, texts};
use vstd::prelude::*;
use vstd::string::StringExecFns;

verus! {

/// The arguments that every report is asked for with.
pub open spec fn report_argv() -> Seq<Seq<char>> {
    seq!["-v"@, "error"@, "-print_format"@, "json"@]
}

fn report_args() -> (argv: Vec<String>)
    ensures
        texts(argv@) == report_argv(),
{
    let mut argv: Vec<String> = Vec::new();
    push_arg(&mut argv, "-v");
    push_arg(&mut argv, "error");
    push_arg(&mut argv, "-print_format");
    push_arg(&mut argv, "json");
    assert(texts(argv@) =~= report_argv());
    argv
}

/// The ffprobe arguments that list a file's streams.
pub fn stream_args(path: &str) -> (argv: Vec<String>)
    ensures
        texts(argv@) == report_argv() + seq!["-show_streams"@, path@],
{
    let mut argv: Vec<String> = report_args();
    push_arg(&mut argv, "-show_streams");
    push_arg(&mut argv, path);
    assert(texts(argv@) =~= report_argv() + seq!["-show_streams"@, path@]);
    argv
}

/// The ffprobe arguments that list the times of a file's audio packets.
pub fn packet_args(path: &str) -> (argv: Vec<String>)
    ensures
        texts(argv@) == report_argv() + seq![
            "-select_streams"@,
            "a:0"@,
            "-show_entries"@,
            "packet=pts_time,duration_time"@,
            path@,
        ],
{
    let mut argv: Vec<String> = report_args();
    push_arg(&mut argv, "-select_streams");
    push_arg(&mut argv, "a:0");
    push_arg(&mut argv, "-show_entries");
    push_arg(&mut argv, "packet=pts_time,duration_time");
    push_arg(&mut argv, path);
    assert(texts(argv@) =~= report_argv() + seq![
        "-select_streams"@,
        "a:0"@,
        "-show_entries"@,
        "packet=pts_time,duration_time"@,
        path@,
    ]);
    argv
}

/// The ffprobe arguments that give the frame size of a file's first video
/// stream.
pub fn dimension_args(path: &str) -> (argv: Vec<String>)
    ensures
        texts(argv@) == report_argv() + seq![
            "-select_streams"@,
            "v:0"@,
            "-show_entries"@,
            "stream=width,height"@,
            path@,
        ],
{
    let mut argv: Vec<String> = report_args();
    push_arg(&mut argv, "-select_streams");
    push_arg(&mut argv, "v:0");
    push_arg(&mut argv, "-show_entries");
    push_arg(&mut argv, "stream=width,height");
    push_arg(&mut argv, path);
    assert(texts(argv@) =~= report_argv() + seq![
        "-select_streams"@,
        "v:0"@,
        "-show_entries"@,
        "stream=width,height"@,
        path@,
    ]);
    argv
}

/// What is said where ffprobe failed.
pub fn report_failed(path: &str, stderr: &str) -> (s: String)
    ensures
        s@ == "ffprobe failed on "@ + path@ + ": "@ + stderr@,
{
    let mut s: String = "ffprobe failed on ".to_owned();
    s.append(path);
    s.append(": ");
    s.append(stderr);
    s
}

/// What ffprobe reports of a stream, as a value.
pub struct StreamView {
    pub codec_type: Seq<char>,
    pub index: Seq<char>,
    pub start_time: Option<Seq<char>>,
    pub attached_pic: bool,
    pub avg_frame_rate: Option<Seq<char>>,
}

impl View for Stream {
    type V = StreamView;

    open spec fn view(&self) -> StreamView {
        StreamView {
            codec_type: self.codec_type@,
            index: self.index@,
            start_time: opt_text(self.start_time),
            attached_pic: self.attached_pic,
            avg_frame_rate: opt_text(self.avg_frame_rate),
        }
    }
}

/// What ffprobe reports of a packet, as a value.
pub struct PacketView {
    pub pts_time: Option<Seq<char>>,
    pub duration_time: Option<Seq<char>>,
}

impl View for Packet {
    type V = PacketView;

    open spec fn view(&self) -> PacketView {
        PacketView {
            pts_time: opt_text(self.pts_time),
            duration_time: opt_text(self.duration_time),
        }
    }
}

/// Streams as values.
pub open spec fn stream_views(v: Seq<Stream>) -> Seq<StreamView> {
    Seq::new(v.len(), |i: int| v[i]@)
}

/// Packets as values.
pub open spec fn packet_views(v: Seq<Packet>) -> Seq<PacketView> {
    Seq::new(v.len(), |i: int| v[i]@)
}

/// The pointer of a list's `i`-th entry.
pub open spec fn entry_pointer(list: Seq<char>, i: int) -> Seq<char> {
    list + "/"@ + dec(i as nat)
}

/// The stream that a report lists at a pointer. Its kind is empty where none is
/// given, its index is `null`, and it is no picture.
pub open spec fn stream_at(
    values: Map<Seq<char>, JsonView>,
    shown: Map<Seq<char>, Seq<char>>,
    pointer: Seq<char>,
) -> StreamView {
    StreamView {
        codec_type: match text_of(at(values, pointer + "/codec_type"@)) {
            Some(t) => t,
            None => ""@,
        },
        index: match at(shown, pointer + "/index"@) {
            Some(t) => t,
            None => "null"@,
        },
        start_time: text_of(at(values, pointer + "/start_time"@)),
        attached_pic: match integer_of(at(values, pointer + "/disposition/attached_pic"@)) {
            Some(n) => n != 0,
            None => false,
        },
        avg_frame_rate: text_of(at(values, pointer + "/avg_frame_rate"@)),
    }
}

/// The packet that a report lists at a pointer.
pub open spec fn packet_at(values: Map<Seq<char>, JsonView>, pointer: Seq<char>) -> PacketView {
    PacketView {
        pts_time: text_of(at(values, pointer + "/pts_time"@)),
        duration_time: text_of(at(values, pointer + "/duration_time"@)),
    }
}

/// The streams that a report's text lists, or what is wrong with it.
pub open spec fn listed_streams(text: Seq<char>) -> Result<Seq<StreamView>, Seq<char>> {
    match parsed_json(text) {
        Err(e) => Err(e),
        Ok((values, shown)) => match at(values, "/streams"@) {
            Some(JsonView::Array(n)) => Ok(
                Seq::new(n, |i: int| stream_at(values, shown, entry_pointer("/streams"@, i))),
            ),
            _ => Err("ffprobe: no streams array"@),
        },
    }
}

/// The packets that a report's text lists, or what is wrong with it.
pub open spec fn listed_packets(text: Seq<char>) -> Result<Seq<PacketView>, Seq<char>> {
    match parsed_json(text) {
        Err(e) => Err(e),
        Ok((values, _)) => match at(values, "/packets"@) {
            Some(JsonView::Array(n)) => Ok(
                Seq::new(n, |i: int| packet_at(values, entry_pointer("/packets"@, i))),
            ),
            _ => Err("ffprobe: no packets array"@),
        },
    }
}

/// A value that fits in 32 bits.
pub open spec fn small(v: Option<JsonView>) -> Option<u32> {
    match unsigned_of(v) {
        Some(n) => if n <= u32::MAX {
            Some(n as u32)
        } else {
            None
        },
        None => None,
    }
}

/// The frame size that a report's text gives, none where it gives none, or what
/// is wrong with the text.
pub open spec fn listed_dimensions(text: Seq<char>) -> Result<Option<(u32, u32)>, Seq<char>> {
    match parsed_json(text) {
        Err(e) => Err(e),
        Ok(_) => match (
            small(json_value(text, "/streams/0/width"@)),
            small(json_value(text, "/streams/0/height"@)),
        ) {
            (Some(w), Some(h)) => Ok(Some((w, h))),
            _ => Ok(None),
        },
    }
}

fn pointer_of(list: &str, i: usize) -> (s: String)
    ensures
        s@ == entry_pointer(list@, i as int),
{
    let mut s: String = list.to_owned();
    s.append("/");
    push_dec(&mut s, i as u128);
    s
}

fn member(pointer: &str, name: &str) -> (s: String)
    ensures
        s@ == pointer@ + name@,
{
    let mut s: String = pointer.to_owned();
    s.append(name);
    s
}

fn text_member(doc: &serde_json::Value, pointer: &str, name: &str) -> (r: Option<String>)
    ensures
        opt_text(r) == text_of(at(doc_values(*doc), pointer@ + name@)),
{
    match value_at(doc, member(pointer, name).as_str()) {
        Some(Json::Text(t)) => Some(t),
        _ => None,
    }
}

fn list_len(doc: &serde_json::Value, list: &str) -> (r: Option<usize>)
    ensures
        match at(doc_values(*doc), list@) {
            Some(JsonView::Array(n)) => r is Some && r->0 == n,
            _ => r is None,
        },
{
    match value_at(doc, list) {
        Some(Json::Array(n)) => Some(n),
        _ => None,
    }
}

fn read_stream(doc: &serde_json::Value, pointer: &str) -> (s: Stream)
    ensures
        s@ == stream_at(doc_values(*doc), doc_texts(*doc), pointer@),
{
    Stream {
        codec_type: match text_member(doc, pointer, "/codec_type") {
            Some(t) => t,
            None => "".to_owned(),
        },
        index: match text_at(doc, member(pointer, "/index").as_str()) {
            Some(t) => t,
            None => "null".to_owned(),
        },
        start_time: text_member(doc, pointer, "/start_time"),
        attached_pic: match as_integer(
            &value_at(doc, member(pointer, "/disposition/attached_pic").as_str()),
        ) {
            Some(n) => n != 0,
            None => false,
        },
        avg_frame_rate: text_member(doc, pointer, "/avg_frame_rate"),
    }
}

/// Reads the streams that a report lists.
pub fn read_streams(text: &str) -> (r: Result<Vec<Stream>, String>)
    ensures
        match listed_streams(text@) {
            Ok(streams) => r is Ok && stream_views(r->Ok_0@) == streams,
            Err(e) => r is Err && r->Err_0@ == e,
        },
{
    let doc: serde_json::Value = match parse_json(text) {
        Ok(doc) => doc,
        Err(e) => {
            return Err(e);
        },
    };
    let n: usize = match list_len(&doc, "/streams") {
        Some(n) => n,
        None => {
            return Err("ffprobe: no streams array".to_owned());
        },
    };
    let ghost all = listed_streams(text@)->Ok_0;
    let mut v: Vec<Stream> = Vec::new();
    assert(stream_views(v@) =~= all.take(0));
    while v.len() < n
        invariant
            v@.len() <= n,
            all == Seq::new(
                n as nat,
                |i: int|
                    stream_at(doc_values(doc), doc_texts(doc), entry_pointer("/streams"@, i)),
            ),
            stream_views(v@) == all.take(v@.len() as int),
        decreases n - v@.len(),
    {
        let ghost before = v@;
        let s: Stream = read_stream(&doc, pointer_of("/streams", v.len()).as_str());
        v.push(s);
        assert(stream_views(v@) =~= stream_views(before).push(s@));
        assert(all.take(v@.len() as int) =~= all.take(before.len() as int).push(
            all[before.len() as int],
        ));
    }
    assert(all.take(n as int) =~= all);
    Ok(v)
}

/// Reads the packets that a report lists.
pub fn read_packets(text: &str) -> (r: Result<Vec<Packet>, String>)
    ensures
        match listed_packets(text@) {
            Ok(packets) => r is Ok && packet_views(r->Ok_0@) == packets,
            Err(e) => r is Err && r->Err_0@ == e,
        },
{
    let doc: serde_json::Value = match parse_json(text) {
        Ok(doc) => doc,
        Err(e) => {
            return Err(e);
        },
    };
    let n: usize = match list_len(&doc, "/packets") {
        Some(n) => n,
        None => {
            return Err("ffprobe: no packets array".to_owned());
        },
    };
    let ghost all = listed_packets(text@)->Ok_0;
    let mut v: Vec<Packet> = Vec::new();
    assert(packet_views(v@) =~= all.take(0));
    while v.len() < n
        invariant
            v@.len() <= n,
            all == Seq::new(
                n as nat,
                |i: int| packet_at(doc_values(doc), entry_pointer("/packets"@, i)),
            ),
            packet_views(v@) == all.take(v@.len() as int),
        decreases n - v@.len(),
    {
        let ghost before = v@;
        let pointer: String = pointer_of("/packets", v.len());
        let p: Packet = Packet {
            pts_time: text_member(&doc, pointer.as_str(), "/pts_time"),
            duration_time: text_member(&doc, pointer.as_str(), "/duration_time"),
        };
        v.push(p);
        assert(packet_views(v@) =~= packet_views(before).push(p@));
        assert(all.take(v@.len() as int) =~= all.take(before.len() as int).push(
            all[before.len() as int],
        ));
    }
    assert(all.take(n as int) =~= all);
    Ok(v)
}

fn small_at(doc: &serde_json::Value, pointer: &str) -> (r: Option<u32>)
    ensures
        r == small(at(doc_values(*doc), pointer@)),
{
    match as_unsigned(&value_at(doc, pointer)) {
        Some(n) => if n <= u32::MAX as u64 {
            Some(n as u32)
        } else {
            None
        },
        None => None,
    }
}

/// Reads the frame size that a report gives.
pub fn video_dimensions(text: &str) -> (r: Result<Option<(u32, u32)>, String>)
    ensures
        match listed_dimensions(text@) {
            Ok(size) => r == Ok::<Option<(u32, u32)>, String>(size),
            Err(e) => r is Err && r->Err_0@ == e,
        },
{
    let doc: serde_json::Value = match parse_json(text) {
        Ok(doc) => doc,
        Err(e) => {
            return Err(e);
        },
    };
    match (small_at(&doc, "/streams/0/width"), small_at(&doc, "/streams/0/height")) {
        (Some(w), Some(h)) => Ok(Some((w, h))),
        _ => Ok(None),
    }
}

// ---------------------------------------------------------------------- laws

/// There are as many streams as the report lists, and each is read from the members
/// of its own entry: texts as they are, a missing kind as none, and a picture iff
/// its disposition says so by a number other than zero.
pub proof fn law_streams_are_read_from_their_entries(text: Seq<char>, n: nat, i: int)
    requires
        parsed_json(text) is Ok,
        json_value(text, "/streams"@) == Some(JsonView::Array(n)),
        0 <= i < n,
    ensures
        ({
            let values = parsed_json(text)->Ok_0.0;
            let streams = listed_streams(text)->Ok_0;
            let member = |name: Seq<char>| at(values, "/streams"@ + "/"@ + dec(i as nat) + name);
            let s = streams[i];
            &&& listed_streams(text) is Ok
            &&& streams.len() == n
            &&& member("/codec_type"@) matches Some(JsonView::Text(t)) ==> s.codec_type == t
            &&& member("/codec_type"@) is None ==> s.codec_type == ""@
            &&& member("/start_time"@) matches Some(JsonView::Text(t)) ==> s.start_time == Some(t)
            &&& member("/start_time"@) is None ==> s.start_time is None
            &&& member("/avg_frame_rate"@) matches Some(JsonView::Text(t)) ==> s.avg_frame_rate
                == Some(t)
            &&& member("/avg_frame_rate"@) is None ==> s.avg_frame_rate is None
            &&& integer_of(member("/disposition/attached_pic"@)) matches Some(k)
                ==> (s.attached_pic <==> k != 0)
            &&& member("/disposition/attached_pic"@) is None ==> !s.attached_pic
            &&& at(parsed_json(text)->Ok_0.1, "/streams"@ + "/"@ + dec(i as nat) + "/index"@)
                matches Some(t) ==> s.index == t
        }),
{
}

/// There are as many packets as the report lists, and each is read from the members
/// of its own entry.
pub proof fn law_packets_are_read_from_their_entries(text: Seq<char>, n: nat, i: int)
    requires
        parsed_json(text) is Ok,
        json_value(text, "/packets"@) == Some(JsonView::Array(n)),
        0 <= i < n,
    ensures
        ({
            let values = parsed_json(text)->Ok_0.0;
            let packets = listed_packets(text)->Ok_0;
            let member = |name: Seq<char>| at(values, "/packets"@ + "/"@ + dec(i as nat) + name);
            &&& listed_packets(text) is Ok
            &&& packets.len() == n
            &&& member("/pts_time"@) matches Some(JsonView::Text(t)) ==> packets[i].pts_time
                == Some(t)
            &&& member("/duration_time"@) matches Some(JsonView::Text(t))
                ==> packets[i].duration_time == Some(t)
        }),
{
}

/// A report's size is the width and the height of its first stream, where both are
/// numbers of 32 bits.
pub proof fn law_sizes_are_width_and_height(text: Seq<char>, w: u32, h: u32)
    requires
        parsed_json(text) is Ok,
    ensures
        unsigned_of(json_value(text, "/streams/0/width"@)) == Some(w as int) && unsigned_of(
            json_value(text, "/streams/0/height"@),
        ) == Some(h as int) ==> listed_dimensions(text) == Ok::<Option<(u32, u32)>, Seq<char>>(
            Some((w, h)),
        ),
        json_value(text, "/streams/0/width"@) is None ==> listed_dimensions(text) == Ok::<
            Option<(u32, u32)>,
            Seq<char>,
        >(None),
{
}

} // verus!
