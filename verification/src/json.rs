//! JSON texts: what the line protocols and ffprobe's reports hold, and the texts
//! that go out.
use crate::number::Real;
use crate::parse::{parse_real, parse_unsigned, parsed_real, unsigned};
use crate::text::chars_of;
use vstd::prelude::*;

verus! {

/// A JSON value: a number by its numeral, an array by its length, an object
/// without its parts.
#[derive(Debug, PartialEq, Eq)]
pub enum Json {
    Null,
    Bool(bool),
    Number(String),
    Text(String),
    Array(usize),
    Object,
}

/// A JSON value, as a value.
pub enum JsonView {
    Null,
    Bool(bool),
    Number(Seq<char>),
    Text(Seq<char>),
    Array(nat),
    Object,
}

impl View for Json {
    type V = JsonView;

    open spec fn view(&self) -> JsonView {
        match self {
            Json::Null => JsonView::Null,
            Json::Bool(b) => JsonView::Bool(*b),
            Json::Number(s) => JsonView::Number(s@),
            Json::Text(s) => JsonView::Text(s@),
            Json::Array(n) => JsonView::Array(*n as nat),
            Json::Object => JsonView::Object,
        }
    }
}

/// An optional value's view.
pub open spec fn json_view(v: Option<Json>) -> Option<JsonView> {
    match v {
        Some(j) => Some(j@),
        None => None,
    }
}

/// `serde_json::Value`: a JSON document.
#[verifier::external_type_specification]
#[verifier::external_body]
pub struct ExValue(serde_json::Value);

/// The values in a document, by their JSON pointers.
pub uninterp spec fn doc_values(doc: serde_json::Value) -> Map<Seq<char>, JsonView>;

/// The JSON texts of the values in a document, by their JSON pointers.
pub uninterp spec fn doc_texts(doc: serde_json::Value) -> Map<Seq<char>, Seq<char>>;

/// What a text is as JSON: the values in it and their texts, by their JSON
/// pointers, or what is wrong with it.
pub uninterp spec fn parsed_json(text: Seq<char>) -> Result<
    (Map<Seq<char>, JsonView>, Map<Seq<char>, Seq<char>>),
    Seq<char>,
>;

/// A text as a JSON string.
pub uninterp spec fn json_string(text: Seq<char>) -> Seq<char>;

/// What a map holds at a key.
pub open spec fn at<V>(m: Map<Seq<char>, V>, key: Seq<char>) -> Option<V> {
    if m.contains_key(key) {
        Some(m[key])
    } else {
        None
    }
}

/// The value at a JSON pointer in a JSON text; none where the text is not JSON
/// or holds nothing there.
pub open spec fn json_value(text: Seq<char>, pointer: Seq<char>) -> Option<JsonView> {
    match parsed_json(text) {
        Ok((values, _)) => at(values, pointer),
        Err(_) => None,
    }
}

/// `serde_json::from_str` to a `serde_json::Value`: the document, or the text
/// that the error displays, is a function of the text.
#[verifier::external_body]
pub(crate) fn parse_json(text: &str) -> (r: Result<serde_json::Value, String>)
    ensures
        match r {
            Ok(doc) => parsed_json(text@) == Ok::<
                (Map<Seq<char>, JsonView>, Map<Seq<char>, Seq<char>>),
                Seq<char>,
            >((doc_values(doc), doc_texts(doc))),
            Err(e) => parsed_json(text@) == Err::<
                (Map<Seq<char>, JsonView>, Map<Seq<char>, Seq<char>>),
                Seq<char>,
            >(e@),
        },
{
    serde_json::from_str(text).map_err(|e| e.to_string())
}

/// `serde_json::Value::pointer`: what stands in the document at the pointer. A
/// number comes as the text that `serde_json::Number` displays.
#[verifier::external_body]
pub(crate) fn value_at(doc: &serde_json::Value, pointer: &str) -> (r: Option<Json>)
    ensures
        json_view(r) == at(doc_values(*doc), pointer@),
{
    doc.pointer(pointer).map(|v| match v {
        serde_json::Value::Null => Json::Null,
        serde_json::Value::Bool(b) => Json::Bool(*b),
        serde_json::Value::Number(n) => Json::Number(n.to_string()),
        serde_json::Value::String(s) => Json::Text(s.clone()),
        serde_json::Value::Array(a) => Json::Array(a.len()),
        serde_json::Value::Object(_) => Json::Object,
    })
}

/// `serde_json::Value`'s display, of what stands in the document at a pointer:
/// its JSON text without spaces between its parts.
#[verifier::external_body]
pub(crate) fn text_at(doc: &serde_json::Value, pointer: &str) -> (r: Option<String>)
    ensures
        match at(doc_texts(*doc), pointer@) {
            Some(s) => r is Some && r->0@ == s,
            None => r is None,
        },
{
    doc.pointer(pointer).map(|v| v.to_string())
}

/// Whether a character stands for itself in a JSON string.
pub open spec fn json_plain(c: char) -> bool {
    c >= ' ' && c != '"' && c != '\\'
}

/// `serde_json::Value`'s display, of a text: the text as a JSON string. Text of
/// characters that stand for themselves is only quoted, and no line break is
/// left in any text; how the other characters are escaped is not said here.
#[verifier::external_body]
pub(crate) fn string_json(text: &str) -> (r: String)
    ensures
        r@ == json_string(text@),
        (forall|i: int| 0 <= i < text@.len() ==> json_plain(#[trigger] text@[i])) ==> r@
            == seq!['"'] + text@ + seq!['"'],
        forall|i: int| 0 <= i < r@.len() ==> #[trigger] r@[i] != '\n',
{
    serde_json::Value::from(text).to_string()
}

impl JsonView {
    /// The value as an unsigned integer.
    pub open spec fn unsigned(self) -> Option<int> {
        match self {
            JsonView::Number(s) => unsigned(s, u64::MAX as int),
            _ => None,
        }
    }

    /// The value as an integer.
    pub open spec fn integer(self) -> Option<int> {
        match self {
            JsonView::Number(s) => if s.len() > 0 && s[0] == '-' {
                match unsigned(s.drop_first(), -(i64::MIN as int)) {
                    Some(n) => Some(-n),
                    None => None,
                }
            } else {
                unsigned(s, i64::MAX as int)
            },
            _ => None,
        }
    }

    /// The value as a quantity.
    pub open spec fn quantity(self) -> Option<Real> {
        match self {
            JsonView::Number(s) => parsed_real(s),
            _ => None,
        }
    }

    /// The value as a text.
    pub open spec fn text(self) -> Option<Seq<char>> {
        match self {
            JsonView::Text(s) => Some(s),
            _ => None,
        }
    }
}

/// The text of an optional value.
pub open spec fn text_of(v: Option<JsonView>) -> Option<Seq<char>> {
    match v {
        Some(j) => j.text(),
        None => None,
    }
}

/// The unsigned integer of an optional value.
pub open spec fn unsigned_of(v: Option<JsonView>) -> Option<int> {
    match v {
        Some(j) => j.unsigned(),
        None => None,
    }
}

/// The integer of an optional value.
pub open spec fn integer_of(v: Option<JsonView>) -> Option<int> {
    match v {
        Some(j) => j.integer(),
        None => None,
    }
}

/// The quantity of an optional value.
pub open spec fn quantity_of(v: Option<JsonView>) -> Option<Real> {
    match v {
        Some(j) => j.quantity(),
        None => None,
    }
}

/// The text of an optional value.
pub fn as_text(v: &Option<Json>) -> (r: Option<&str>)
    ensures
        match text_of(json_view(*v)) {
            Some(s) => r is Some && r->0@ == s,
            None => r is None,
        },
{
    match v {
        Some(Json::Text(s)) => Some(s.as_str()),
        _ => None,
    }
}

/// The unsigned integer of an optional value.
pub fn as_unsigned(v: &Option<Json>) -> (r: Option<u64>)
    ensures
        match unsigned_of(json_view(*v)) {
            Some(n) => r == Some(n as u64) && 0 <= n <= u64::MAX,
            None => r is None,
        },
{
    match v {
        Some(Json::Number(s)) => parse_unsigned(&chars_of(s.as_str()), u64::MAX),
        _ => None,
    }
}

/// The integer of an optional value.
pub fn as_integer(v: &Option<Json>) -> (r: Option<i64>)
    ensures
        match integer_of(json_view(*v)) {
            Some(n) => r == Some(n as i64) && i64::MIN <= n <= i64::MAX,
            None => r is None,
        },
{
    match v {
        Some(Json::Number(s)) => {
            let chars: Vec<char> = chars_of(s.as_str());
            if chars.len() > 0 && chars[0] == '-' {
                let digits: Vec<char> = crate::text::slice_chars(&chars, 1, chars.len());
                assert(digits@ =~= s@.drop_first());
                match parse_unsigned(&digits, 0x8000_0000_0000_0000) {
                    Some(n) => Some((-(n as i128)) as i64),
                    None => None,
                }
            } else {
                match parse_unsigned(&chars, i64::MAX as u64) {
                    Some(n) => Some(n as i64),
                    None => None,
                }
            }
        },
        _ => None,
    }
}

/// The quantity of an optional value.
pub fn as_quantity(v: &Option<Json>) -> (r: Option<Real>)
    ensures
        r == quantity_of(json_view(*v)),
{
    match v {
        Some(Json::Number(s)) => parse_real(s.as_str()),
        _ => None,
    }
}

/// Whether an optional value is `true`.
pub fn is_true(v: &Option<Json>) -> (r: bool)
    ensures
        r == (json_view(*v) == Some(JsonView::Bool(true))),
{
    match v {
        Some(Json::Bool(b)) => *b,
        _ => false,
    }
}

/// Numbers are read back from their numerals: unsigned ones, signed ones and
/// quantities; what is not a number is none of them.
pub proof fn law_numbers_read_back(n: u64, i: i64)
    requires
        i > i64::MIN,
    ensures
        JsonView::Number(crate::text::dec(n as nat)).unsigned() == Some(n as int),
        JsonView::Number(crate::text::signed_dec(i as int)).integer() == Some(i as int),
        JsonView::Number(crate::number::seconds_text(i as int)).quantity() == Some(Real::Nano(i)),
        JsonView::Text(crate::text::dec(n as nat)).unsigned() is None,
        JsonView::Text(crate::text::dec(n as nat)).quantity() is None,
{
    crate::parse::law_unsigned_numerals_read_back(n as nat, u64::MAX as int);
    crate::parse::law_written_seconds_read_back(i);
    if i < 0 {
        crate::parse::law_unsigned_numerals_read_back((-i) as nat, -(i64::MIN as int));
        crate::text::law_signed_numerals(i as int);
        assert(crate::text::signed_dec(i as int).drop_first() =~= crate::text::dec((-i) as nat));
    } else {
        crate::parse::law_unsigned_numerals_read_back(i as nat, i64::MAX as int);
        crate::text::law_numerals_read_back(i as nat);
        assert(crate::text::ascii_digit(crate::text::dec(i as nat)[0]));
        assert(crate::text::signed_dec(i as int) =~= crate::text::dec(i as nat));
    }
}

} // verus!
