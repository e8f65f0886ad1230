//! The search input: a line editor of the tui-input crate, and what is relied
//! on of it.
use super::event::{KeyCode, CONTROL};
use tui_input::backend::crossterm::EventHandler;
use vstd::prelude::*;

verus! {

/// A line being edited: a `tui_input::Input`, which holds a text, a cursor in
/// it, and what was cut last.
#[verifier::external_body]
pub struct Line {
    inner: tui_input::Input,
}

/// The characters that a line holds.
pub uninterp spec fn line_text(line: Line) -> Seq<char>;

/// The number of characters before a line's cursor.
pub uninterp spec fn line_cursor(line: Line) -> nat;

/// The characters that were cut out of a line last.
pub uninterp spec fn line_cut(line: Line) -> Seq<char>;

/// Whether what is cut next is joined to what was cut last.
pub uninterp spec fn line_cutting(line: Line) -> bool;

/// A key as the line editor tells keys apart.
#[derive(Debug, Clone, Copy, PartialEq, Eq, Structural)]
pub enum LineKey {
    Char(char),
    Backspace,
    Delete,
    Left,
    Right,
    Home,
    End,
    Other,
}

/// A key as the line editor tells keys apart.
pub open spec fn line_key_of(code: KeyCode) -> LineKey {
    match code {
        KeyCode::Char(c) => LineKey::Char(c),
        KeyCode::Backspace => LineKey::Backspace,
        KeyCode::Delete => LineKey::Delete,
        KeyCode::Left => LineKey::Left,
        KeyCode::Right => LineKey::Right,
        KeyCode::Home => LineKey::Home,
        KeyCode::End => LineKey::End,
        _ => LineKey::Other,
    }
}

/// A key as the line editor tells keys apart.
pub fn line_key(code: KeyCode) -> (k: LineKey)
    ensures
        k == line_key_of(code),
{
    match code {
        KeyCode::Char(c) => LineKey::Char(c),
        KeyCode::Backspace => LineKey::Backspace,
        KeyCode::Delete => LineKey::Delete,
        KeyCode::Left => LineKey::Left,
        KeyCode::Right => LineKey::Right,
        KeyCode::Home => LineKey::Home,
        KeyCode::End => LineKey::End,
        _ => LineKey::Other,
    }
}

/// Modifiers under which a character key types its character: none, shift, or
/// control and alt together.
pub open spec fn types(modifiers: u8) -> bool {
    modifiers == 0 || modifiers == 1 || modifiers == 6
}

/// A line as a value: its text, the number of characters before the cursor,
/// what was cut last, and whether what is cut next is joined to it.
#[verifier::ext_equal]
pub struct LineView {
    pub text: Seq<char>,
    pub cursor: nat,
    pub cut: Seq<char>,
    pub cutting: bool,
}

/// A line as a value.
pub open spec fn line_view(line: Line) -> LineView {
    LineView {
        text: line_text(line),
        cursor: line_cursor(line),
        cut: line_cut(line),
        cutting: line_cutting(line),
    }
}

/// The alt modifier.
pub const ALT: u8 = 4;

/// The meta modifier.
pub const META: u8 = 32;

/// What a key asks of the line editor.
pub enum LineRequest {
    Type(char),
    EraseCharBefore,
    EraseCharAfter,
    EraseWordBefore,
    EraseWordAfter,
    EraseLine,
    CutToEnd,
    PutBack,
    CharBack,
    CharOn,
    WordBack,
    WordOn,
    ToStart,
    ToEnd,
    Nothing,
}

/// What a character key asks for under the control modifier.
pub open spec fn control_request(c: char) -> LineRequest {
    if c == 'h' {
        LineRequest::EraseCharBefore
    } else if c == 'w' {
        LineRequest::EraseWordBefore
    } else if c == 'u' {
        LineRequest::EraseLine
    } else if c == 'k' {
        LineRequest::CutToEnd
    } else if c == 'y' {
        LineRequest::PutBack
    } else if c == 'a' {
        LineRequest::ToStart
    } else if c == 'e' {
        LineRequest::ToEnd
    } else if c == 'b' {
        LineRequest::CharBack
    } else if c == 'f' {
        LineRequest::CharOn
    } else {
        LineRequest::Nothing
    }
}

/// What a character key asks for under the meta modifier.
pub open spec fn meta_request(c: char) -> LineRequest {
    if c == 'd' {
        LineRequest::EraseWordBefore
    } else if c == 'b' {
        LineRequest::WordBack
    } else if c == 'f' {
        LineRequest::WordOn
    } else {
        LineRequest::Nothing
    }
}

/// What a key asks for.
pub open spec fn line_request(key: LineKey, modifiers: u8) -> LineRequest {
    match key {
        LineKey::Char(c) => if types(modifiers) {
            LineRequest::Type(c)
        } else if modifiers == CONTROL {
            control_request(c)
        } else if modifiers == META {
            meta_request(c)
        } else {
            LineRequest::Nothing
        },
        LineKey::Backspace => if modifiers == 0 {
            LineRequest::EraseCharBefore
        } else if modifiers == ALT || modifiers == META {
            LineRequest::EraseWordBefore
        } else {
            LineRequest::Nothing
        },
        LineKey::Delete => if modifiers == 0 {
            LineRequest::EraseCharAfter
        } else if modifiers == CONTROL {
            LineRequest::EraseWordAfter
        } else {
            LineRequest::Nothing
        },
        LineKey::Left => if modifiers == 0 {
            LineRequest::CharBack
        } else if modifiers == CONTROL {
            LineRequest::WordBack
        } else {
            LineRequest::Nothing
        },
        LineKey::Right => if modifiers == 0 {
            LineRequest::CharOn
        } else if modifiers == CONTROL {
            LineRequest::WordOn
        } else {
            LineRequest::Nothing
        },
        LineKey::Home => if modifiers == 0 {
            LineRequest::ToStart
        } else {
            LineRequest::Nothing
        },
        LineKey::End => if modifiers == 0 {
            LineRequest::ToEnd
        } else {
            LineRequest::Nothing
        },
        LineKey::Other => LineRequest::Nothing,
    }
}

/// `prev_grapheme` of the tui-input crate, in characters: where the character,
/// as a reader tells characters apart, before the cursor of a text begins.
pub uninterp spec fn char_before(text: Seq<char>, cursor: nat) -> nat;

/// `next_grapheme` of the tui-input crate, in characters: where the character,
/// as a reader tells characters apart, after the cursor of a text ends.
pub uninterp spec fn char_after(text: Seq<char>, cursor: nat) -> nat;

/// `prev_word_byte` of the tui-input crate, in characters: where the last word
/// that begins before the cursor of a text begins.
pub uninterp spec fn word_before(text: Seq<char>, cursor: nat) -> nat;

/// `next_word_byte` of the tui-input crate, in characters: where the first word
/// that begins after the cursor of a text begins.
pub uninterp spec fn word_after(text: Seq<char>, cursor: nat) -> nat;

/// The places around a cursor that the keys go to.
pub struct Stops {
    pub char_before: nat,
    pub char_after: nat,
    pub word_before: nat,
    pub word_after: nat,
}

/// The places around the cursor of a line.
pub open spec fn stops(v: LineView) -> Stops {
    Stops {
        char_before: char_before(v.text, v.cursor),
        char_after: char_after(v.text, v.cursor),
        word_before: word_before(v.text, v.cursor),
        word_after: word_after(v.text, v.cursor),
    }
}

/// Whether a text is of printable ASCII characters alone.
pub open spec fn printable(t: Seq<char>) -> bool {
    forall|i: int| 0 <= i < t.len() ==> ' ' <= #[trigger] t[i] <= '~'
}

/// Whether places lie around the cursor of a line: before it where anything
/// stands before it, and after it, in the text, where anything stands after it.
/// In printable ASCII each character counts.
pub open spec fn around(v: LineView, at: Stops) -> bool {
    &&& v.cursor > 0 ==> at.char_before < v.cursor && at.word_before < v.cursor
    &&& v.cursor < v.text.len() ==> v.cursor < at.char_after <= v.text.len() && v.cursor
        < at.word_after <= v.text.len()
    &&& printable(v.text) ==> {
        &&& v.cursor > 0 ==> at.char_before == v.cursor - 1
        &&& v.cursor < v.text.len() ==> at.char_after == v.cursor + 1
    }
}

/// What counts as cut once a text was cut too: right after another cut it is
/// joined to that, in front or behind.
pub open spec fn cut_with(v: LineView, t: Seq<char>, in_front: bool) -> Seq<char> {
    if !v.cutting {
        t
    } else if in_front {
        t + v.cut
    } else {
        v.cut + t
    }
}

/// What a request makes of a line with the given places around its cursor.
pub open spec fn line_after(v: LineView, at: Stops, request: LineRequest) -> LineView {
    let t = v.text;
    let c = v.cursor as int;
    match request {
        LineRequest::Type(ch) => LineView {
            text: t.insert(c, ch),
            cursor: v.cursor + 1,
            cutting: false,
            ..v
        },
        LineRequest::EraseCharBefore => if c == 0 {
            v
        } else {
            LineView {
                text: t.take(at.char_before as int) + t.skip(c),
                cursor: at.char_before,
                cutting: false,
                ..v
            }
        },
        LineRequest::EraseCharAfter => if c == t.len() {
            v
        } else {
            LineView { text: t.take(c) + t.skip(at.char_after as int), cutting: false, ..v }
        },
        LineRequest::EraseWordBefore => if c == 0 {
            LineView { cutting: true, ..v }
        } else {
            LineView {
                text: t.take(at.word_before as int) + t.skip(c),
                cursor: at.word_before,
                cut: cut_with(v, t.subrange(at.word_before as int, c), true),
                cutting: true,
            }
        },
        LineRequest::EraseWordAfter => if c == t.len() {
            LineView { cutting: true, ..v }
        } else {
            LineView {
                text: t.take(c) + t.skip(at.word_after as int),
                cut: cut_with(v, t.subrange(c, at.word_after as int), false),
                cutting: true,
                ..v
            }
        },
        LineRequest::EraseLine => if t.len() == 0 {
            LineView { cutting: true, ..v }
        } else {
            LineView {
                text: Seq::empty(),
                cursor: 0,
                cut: cut_with(v, t, c == t.len()),
                cutting: true,
            }
        },
        LineRequest::CutToEnd => LineView {
            text: t.take(c),
            cut: cut_with(v, t.skip(c), false),
            cutting: true,
            ..v
        },
        LineRequest::PutBack => LineView {
            text: t.take(c) + v.cut + t.skip(c),
            cursor: v.cursor + v.cut.len(),
            cutting: false,
            ..v
        },
        LineRequest::CharBack => if c == 0 {
            v
        } else {
            LineView { cursor: at.char_before, cutting: false, ..v }
        },
        LineRequest::CharOn => if c == t.len() {
            v
        } else {
            LineView { cursor: at.char_after, cutting: false, ..v }
        },
        LineRequest::WordBack => LineView {
            cursor: if c == 0 {
                0
            } else {
                at.word_before
            },
            cutting: false,
            ..v
        },
        LineRequest::WordOn => LineView {
            cursor: if c == t.len() {
                v.cursor
            } else {
                at.word_after
            },
            cutting: false,
            ..v
        },
        LineRequest::ToStart => LineView { cursor: 0, cutting: false, ..v },
        LineRequest::ToEnd => LineView { cursor: t.len(), cutting: false, ..v },
        LineRequest::Nothing => v,
    }
}

/// Whether a request edits the text of a line.
pub open spec fn line_edits(v: LineView, request: LineRequest) -> bool {
    match request {
        LineRequest::Type(_) => true,
        LineRequest::EraseCharBefore => v.cursor > 0,
        LineRequest::EraseCharAfter => v.cursor != v.text.len(),
        LineRequest::EraseWordBefore => v.cursor > 0,
        LineRequest::EraseWordAfter => v.cursor != v.text.len(),
        LineRequest::EraseLine => v.text.len() > 0,
        LineRequest::CutToEnd => true,
        LineRequest::PutBack => v.cut.len() > 0,
        _ => false,
    }
}

/// Whether a key makes one line of another; `changed` says that the text was
/// edited.
pub open spec fn line_edit(
    v: LineView,
    at: Stops,
    key: LineKey,
    modifiers: u8,
    changed: bool,
    end: LineView,
) -> bool {
    &&& around(v, at)
    &&& changed == line_edits(v, line_request(key, modifiers))
    &&& end == line_after(v, at, line_request(key, modifiers))
}

/// The cursor stays in its line.
pub proof fn law_cursor_stays_in_its_line(v: LineView, at: Stops, request: LineRequest)
    requires
        v.cursor <= v.text.len(),
        around(v, at),
    ensures
        line_after(v, at, request).cursor <= line_after(v, at, request).text.len(),
{
}

/// A request that does not edit the text leaves it as it was.
pub proof fn law_only_edits_change_the_text(v: LineView, at: Stops, request: LineRequest)
    requires
        v.cursor <= v.text.len(),
        !line_edits(v, request),
    ensures
        line_after(v, at, request).text == v.text,
{
    if request is PutBack {
        assert(v.text.take(v.cursor as int) + v.cut + v.text.skip(v.cursor as int) =~= v.text);
    }
}

/// What was cut can be put back: a line cut at the cursor by a first cut is
/// whole again, with the cursor at its end.
pub proof fn law_cut_is_put_back(v: LineView, at: Stops, then_at: Stops)
    requires
        v.cursor <= v.text.len(),
        !v.cutting,
    ensures
        ({
            let cut = line_after(v, at, LineRequest::CutToEnd);
            let end = line_after(cut, then_at, LineRequest::PutBack);
            end.text == v.text && end.cursor == v.text.len()
        }),
{
    let c = v.cursor as int;
    let cut = line_after(v, at, LineRequest::CutToEnd);
    assert(cut.text.take(c) + cut.cut + cut.text.skip(c) =~= v.text);
}

/// `tui_input::Input::default`: an empty line.
#[verifier::external_body]
pub(crate) fn new_line() -> (line: Line)
    ensures
        line_text(line) == Seq::<char>::empty(),
        line_cursor(line) == 0,
        line_cut(line) == Seq::<char>::empty(),
        !line_cutting(line),
{
    Line { inner: tui_input::Input::default() }
}

/// `tui_input::Input::value`: the line's text.
#[verifier::external_body]
pub(crate) fn line_value(line: &Line) -> (s: &str)
    ensures
        s@ == line_text(*line),
{
    line.inner.value()
}

/// `tui_input::Input::handle_event` of its crossterm backend, on a key press,
/// for a line whose cursor lies in it: characters are typed at the cursor, the
/// moving keys only move it, the erasing keys take out what stands before or
/// after it, control-U empties the line, control-K cuts it at the cursor,
/// control-Y puts back at the cursor what was cut, and a key without a meaning
/// does nothing. The keys that take out words or the rest of the line cut what
/// they take out. How far a word reaches, or a character that is not of
/// printable ASCII, is a matter of the text and the cursor. The result says
/// whether the text was edited.
#[verifier::external_body]
pub(crate) fn press(line: &mut Line, key: LineKey, modifiers: u8) -> (changed: bool)
    requires
        line_cursor(*old(line)) <= line_text(*old(line)).len(),
    ensures
        line_edit(
            line_view(*old(line)),
            (Stops {
                char_before: char_before(line_text(*old(line)), line_cursor(*old(line))),
                char_after: char_after(line_text(*old(line)), line_cursor(*old(line))),
                word_before: word_before(line_text(*old(line)), line_cursor(*old(line))),
                word_after: word_after(line_text(*old(line)), line_cursor(*old(line))),
            }),
            key,
            modifiers,
            changed,
            line_view(*final(line)),
        ),
{
    let code = match key {
        LineKey::Char(c) => crossterm::event::KeyCode::Char(c),
        LineKey::Backspace => crossterm::event::KeyCode::Backspace,
        LineKey::Delete => crossterm::event::KeyCode::Delete,
        LineKey::Left => crossterm::event::KeyCode::Left,
        LineKey::Right => crossterm::event::KeyCode::Right,
        LineKey::Home => crossterm::event::KeyCode::Home,
        LineKey::End => crossterm::event::KeyCode::End,
        LineKey::Other => crossterm::event::KeyCode::Null,
    };
    let modifiers = crossterm::event::KeyModifiers::from_bits_retain(modifiers);
    let event = crossterm::event::KeyEvent::new(code, modifiers);
    line.inner.handle_event(&crossterm::event::Event::Key(event)).is_some_and(|change| change.value)
}

/// `Input::visual_cursor` of the tui-input crate: how many terminal columns a
/// text's first `cursor` characters take.
pub uninterp spec fn columns_before(text: Seq<char>, cursor: nat) -> nat;

/// `Input::visual_scroll` of the tui-input crate: by how many terminal columns
/// a text is scrolled for a cursor after `cursor` characters to show in `width`
/// columns.
pub uninterp spec fn columns_scrolled(text: Seq<char>, cursor: nat, width: nat) -> nat;

/// `tui_input::Input::visual_cursor`, for a line whose cursor lies in it: the
/// terminal columns before the cursor, a matter of the line's text and cursor.
#[verifier::external_body]
pub(crate) fn cursor_columns(line: &Line) -> (n: usize)
    requires
        line_cursor(*line) <= line_text(*line).len(),
    ensures
        n == columns_before(line_text(*line), line_cursor(*line)),
{
    line.inner.visual_cursor()
}

/// `tui_input::Input::visual_scroll`, for a line whose cursor lies in it: the
/// terminal columns scrolled off, a matter of the line's text and cursor and of
/// the width. A line whose cursor shows without is not scrolled.
#[verifier::external_body]
pub(crate) fn scroll_columns(line: &Line, width: usize) -> (n: usize)
    requires
        line_cursor(*line) <= line_text(*line).len(),
    ensures
        n == columns_scrolled(line_text(*line), line_cursor(*line), width as nat),
        columns_before(line_text(*line), line_cursor(*line)) <= width ==> n == 0,
{
    line.inner.visual_scroll(width)
}

impl Line {
    /// The line's text.
    pub fn value(&self) -> (s: &str)
        ensures
            s@ == line_text(*self),
    {
        line_value(self)
    }
}

/// The keys of the query line: a plain or shifted character is typed; backspace and
/// delete erase a character, arrows move by one, home and end go to the ends; with
/// control a word is erased or moved by, and the letters act as in a shell.
pub proof fn law_line_keys_do_one_thing(c: char)
    ensures
        line_request(LineKey::Char(c), 0) == LineRequest::Type(c),
        line_request(LineKey::Char(c), 1) == LineRequest::Type(c),
        line_request(LineKey::Backspace, 0) is EraseCharBefore,
        line_request(LineKey::Delete, 0) is EraseCharAfter,
        line_request(LineKey::Left, 0) is CharBack,
        line_request(LineKey::Right, 0) is CharOn,
        line_request(LineKey::Home, 0) is ToStart,
        line_request(LineKey::End, 0) is ToEnd,
        line_request(LineKey::Delete, 2) is EraseWordAfter,
        line_request(LineKey::Left, 2) is WordBack,
        line_request(LineKey::Right, 2) is WordOn,
        line_request(LineKey::Backspace, 4) is EraseWordBefore,
        line_request(LineKey::Char('w'), 2) is EraseWordBefore,
        line_request(LineKey::Char('u'), 2) is EraseLine,
        line_request(LineKey::Char('k'), 2) is CutToEnd,
        line_request(LineKey::Char('y'), 2) is PutBack,
        line_request(LineKey::Char('a'), 2) is ToStart,
        line_request(LineKey::Char('e'), 2) is ToEnd,
        line_request(LineKey::Char('b'), 2) is CharBack,
        line_request(LineKey::Char('f'), 2) is CharOn,
        line_request(LineKey::Char('h'), 2) is EraseCharBefore,
        line_request(LineKey::Char('d'), 32) is EraseWordBefore,
        line_request(LineKey::Char('b'), 32) is WordBack,
        line_request(LineKey::Char('f'), 32) is WordOn,
{
}

/// What is typed stands at the cursor, which goes past it; erasing it again leaves the
/// line as it was.
pub proof fn law_typing_is_taken_back(v: LineView, at: Stops, then_at: Stops, c: char)
    requires
        v.cursor <= v.text.len(),
        then_at.char_before == v.cursor,
    ensures
        ({
            let typed = line_after(v, at, LineRequest::Type(c));
            let erased = line_after(typed, then_at, LineRequest::EraseCharBefore);
            &&& typed.text.len() == v.text.len() + 1
            &&& typed.text[v.cursor as int] == c
            &&& typed.cursor == v.cursor + 1
            &&& erased.text == v.text
            &&& erased.cursor == v.cursor
        }),
{
    let typed = line_after(v, at, LineRequest::Type(c));
    assert(typed.text.take(v.cursor as int) + typed.text.skip(v.cursor as int + 1) =~= v.text);
}

} // verus!
