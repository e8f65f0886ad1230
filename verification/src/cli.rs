//! Reading command-line values.
use crate::parse::{parse_unsigned, unsigned};
use crate::text::{chars_of, debug_text, quoted, slice_chars};
use vstd::prelude::*;
use vstd::string::StringExecFns;

verus! {

/// The position of the first `x` or `X` at or after `from`.
pub open spec fn cross_at(s: Seq<char>, from: int) -> Option<int>
    decreases s.len() - from,
{
    if from < 0 || from >= s.len() {
        None
    } else if s[from] == 'x' || s[from] == 'X' {
        Some(from)
    } else {
        cross_at(s, from + 1)
    }
}

/// The size that a text such as `1920x1080` gives: two positive numbers.
pub open spec fn size_of(s: Seq<char>) -> Option<(int, int)> {
    match cross_at(s, 0) {
        None => None,
        Some(at) => match (
            unsigned(s.take(at), u32::MAX as int),
            unsigned(s.skip(at + 1), u32::MAX as int),
        ) {
            (Some(w), Some(h)) => if w > 0 && h > 0 {
                Some((w, h))
            } else {
                None
            },
            _ => None,
        },
    }
}

fn not_a_size(s: &str) -> (r: Result<(u32, u32), String>)
    ensures
        r is Err && r->Err_0@ == debug_text(s@) + " is not WxH"@,
{
    let mut message: String = quoted(s);
    message.append(" is not WxH");
    Err(message)
}

/// Reads an output size.
pub fn parse_size(s: &str) -> (r: Result<(u32, u32), String>)
    ensures
        match size_of(s@) {
            Some((w, h)) => r == Ok::<(u32, u32), String>((w as u32, h as u32)),
            None => r is Err && r->Err_0@ == debug_text(s@) + " is not WxH"@,
        },
{
    let chars: Vec<char> = chars_of(s);
    let mut at: usize = 0;
    while at < chars.len() && chars[at] != 'x' && chars[at] != 'X'
        invariant
            at <= chars@.len(),
            chars@ == s@,
            cross_at(s@, 0) == cross_at(s@, at as int),
        decreases chars@.len() - at,
    {
        at = at + 1;
    }
    if at == chars.len() {
        return not_a_size(s);
    }
    let left: Vec<char> = slice_chars(&chars, 0, at);
    let right: Vec<char> = slice_chars(&chars, at + 1, chars.len());
    assert(left@ =~= s@.take(at as int));
    assert(right@ =~= s@.skip(at + 1));
    match (parse_unsigned(&left, u32::MAX as u64), parse_unsigned(&right, u32::MAX as u64)) {
        (Some(w), Some(h)) => {
            if w > 0 && h > 0 {
                Ok((w as u32, h as u32))
            } else {
                not_a_size(s)
            }
        },
        _ => not_a_size(s),
    }
}

/// A size is read back as it is written, with either cross between its two numbers,
/// iff both are positive.
pub proof fn law_sizes_read_back(w: u32, h: u32)
    ensures
        ({
            let (a, b) = (crate::text::dec(w as nat), crate::text::dec(h as nat));
            let read = if w > 0 && h > 0 {
                Some((w as int, h as int))
            } else {
                None
            };
            &&& size_of(a + "x"@ + b) == read
            &&& size_of(a + "X"@ + b) == read
            &&& size_of(a) is None
        }),
{
    let (a, b) = (crate::text::dec(w as nat), crate::text::dec(h as nat));
    reveal_strlit("x");
    reveal_strlit("X");
    crate::text::law_numerals_read_back(w as nat);
    crate::parse::law_unsigned_numerals_read_back(w as nat, u32::MAX as int);
    crate::parse::law_unsigned_numerals_read_back(h as nat, u32::MAX as int);
    lemma_cross_at(a, "x"@ + b, 0);
    lemma_cross_at(a, "X"@ + b, 0);
    lemma_cross_at(a, Seq::empty(), 0);
    let (s, t) = (a + "x"@ + b, a + "X"@ + b);
    assert(s =~= a + ("x"@ + b));
    assert(t =~= a + ("X"@ + b));
    assert(a + Seq::<char>::empty() =~= a);
    assert(s.take(a.len() as int) =~= a);
    assert(t.take(a.len() as int) =~= a);
    assert(s.skip(a.len() as int + 1) =~= b);
    assert(t.skip(a.len() as int + 1) =~= b);
}

proof fn lemma_cross_at(digits: Seq<char>, rest: Seq<char>, from: int)
    requires
        crate::text::all_digits(digits),
        0 <= from <= digits.len(),
        rest.len() > 0 ==> rest[0] == 'x' || rest[0] == 'X',
    ensures
        cross_at(digits + rest, from) == if rest.len() > 0 {
            Some(digits.len() as int)
        } else {
            None
        },
    decreases digits.len() - from,
{
    if from < digits.len() {
        assert((digits + rest)[from] == digits[from]);
        assert(crate::text::ascii_digit(digits[from]));
        lemma_cross_at(digits, rest, from + 1);
    } else if rest.len() > 0 {
        assert((digits + rest)[from] == rest[0]);
    }
}

} // verus!
