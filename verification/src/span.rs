//! Span references: the universal address into immutable sources.
use crate::number::{difference, Real};
use crate::text::{push_signed, signed_dec};
use vstd::prelude::*;
use vstd::string::StringExecFns;

verus! {

/// Identifier of an immutable source in the corpus (its row id).
#[derive(Debug, Clone, Copy, PartialEq, Eq, PartialOrd, Ord, Hash, Structural)]
pub struct SourceId(pub i64);

/// The text that names a source in messages.
pub open spec fn source_text(id: SourceId) -> Seq<char> {
    "SourceId("@ + signed_dec(id.0 as int) + ")"@
}

impl SourceId {
    /// The text that names the source in messages.
    pub fn text(self) -> (s: String)
        ensures
            s@ == source_text(self),
    {
        let mut s: String = "SourceId(".to_owned();
        push_signed(&mut s, self.0);
        s.append(")");
        s
    }
}

/// Which channels of the source a span addresses. Audio and video are
/// decoupled as first-class: a mix routinely takes the audio of one span over
/// the video of another.
#[derive(Debug, Clone, Copy, PartialEq, Eq, Structural)]
pub enum Channel {
    Audio,
    Video,
    Both,
}

impl Channel {
    /// The channel's name.
    pub open spec fn spec_name(self) -> Seq<char> {
        match self {
            Channel::Audio => "Audio"@,
            Channel::Video => "Video"@,
            Channel::Both => "Both"@,
        }
    }

    /// The channel's name.
    pub fn name(self) -> (s: &'static str)
        ensures
            s@ == self.spec_name(),
    {
        match self {
            Channel::Audio => "Audio",
            Channel::Video => "Video",
            Channel::Both => "Both",
        }
    }
}

/// A reference into an immutable source. Sources are never edited, only
/// indexed; everything downstream points back into them via spans. Times count
/// from the start of the source.
#[derive(Debug, Clone, Copy, PartialEq, Eq, Structural)]
pub struct Span {
    pub source: SourceId,
    pub t_start: Real,
    pub t_end: Real,
    pub channel: Channel,
}

impl Span {
    /// The span's length: its end less its start.
    pub fn duration(&self) -> (d: Real)
        ensures
            d == difference(self.t_end, self.t_start),
    {
        self.t_end.minus(self.t_start)
    }
}

} // verus!
