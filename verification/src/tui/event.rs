//! The one merged event enum, and the keys it carries.
use super::player::PlayerUpdate;
use crate::corpus::search::SearchHit;
use vstd::prelude::*;

verus! {

/// The shift modifier's bit.
pub const SHIFT: u8 = 1;

/// The control modifier's bit.
pub const CONTROL: u8 = 2;

/// A key.
#[derive(Debug, Clone, Copy, PartialEq, Eq, Structural)]
pub enum KeyCode {
    Char(char),
    Backspace,
    Delete,
    Left,
    Right,
    Home,
    End,
    Up,
    Down,
    PageUp,
    PageDown,
    Enter,
    Tab,
    Esc,
    /// Any other key.
    Other,
}

/// A key with its modifiers, a set of bits.
#[derive(Debug, Clone, Copy, PartialEq, Eq, Structural)]
pub struct Key {
    pub code: KeyCode,
    pub modifiers: u8,
}

impl Key {
    /// Whether the control modifier is held.
    pub open spec fn has_control(self) -> bool {
        self.modifiers & CONTROL != 0
    }

    /// Whether the shift modifier is held.
    pub open spec fn has_shift(self) -> bool {
        self.modifiers & SHIFT != 0
    }

    /// Whether the control modifier is held.
    pub fn ctrl(self) -> (b: bool)
        ensures
            b == self.has_control(),
    {
        self.modifiers & CONTROL != 0
    }

    /// Whether the shift modifier is held.
    pub fn shift(self) -> (b: bool)
        ensures
            b == self.has_shift(),
    {
        self.modifiers & SHIFT != 0
    }
}

/// What the terminal reports.
#[derive(Debug, Clone, Copy, PartialEq, Eq, Structural)]
pub enum TermEvent {
    Key { key: Key, released: bool },
    /// Anything but a key.
    Other,
}

/// Everything the application loop consumes.
#[derive(Debug)]
pub enum Event {
    /// A terminal event.
    Term(TermEvent),
    /// A finished corpus search. The generation ties the result to the query
    /// revision that asked for it; stale results are dropped.
    SearchDone { generation: u64, result: Result<Vec<SearchHit>, String> },
    /// A player status update.
    Player(PlayerUpdate),
}

/// Every hit's matches lie within its words.
pub open spec fn hits_proper(hits: Seq<SearchHit>) -> bool {
    forall|i: int| #![trigger hits[i]] 0 <= i < hits.len() ==> hits[i].wf()
}

impl Event {
    /// Search results are proper.
    pub open spec fn wf(self) -> bool {
        match self {
            Event::SearchDone { result: Ok(hits), .. } => hits_proper(hits@),
            _ => true,
        }
    }
}

} // verus!
