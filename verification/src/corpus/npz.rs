//! Minimal `prosody.npz` reader: a zip archive of `.npy` entries. Only what
//! the contract needs (little-endian float32, C-order, 1-D `f0` and `rms_db`
//! and 2-D `mfcc`); everything else is a typed rejection, never a guess.
//!
//! Samples are carried as the bit patterns of the 32-bit floats they are.
use super::features::{ProsodyData, MFCC_DIM};
use super::{CorpusError, CorpusFault};
use crate::fine::Fine;
use crate::text::{
    all_digits, value, char_views, chars_of, dec, find, find_from, join, joined, push_dec, same,
    slice_chars, split, split_on, string_of, texts, trim, trim_front, trimmed_text,
};
use std::io::{Cursor, Read};
use vstd::prelude::*;
use vstd::string::StringExecFns;
use vstd::utf8::{decode_utf8, valid_utf8};

verus! {

// ----------------------------------------------------------------- zip entries

/// What reading one entry of a zip archive gives.
#[derive(Debug)]
pub enum ZipEntry {
    /// The bytes are no zip archive.
    NotAnArchive(String),
    /// The archive has no such entry.
    Missing(String),
    /// The entry's data cannot be read.
    Unreadable(String),
    Data(Vec<u8>),
}

/// What reading one entry gives, as a value.
pub enum ZipEntryView {
    NotAnArchive(Seq<char>),
    Missing(Seq<char>),
    Unreadable(Seq<char>),
    Data(Seq<u8>),
}

impl View for ZipEntry {
    type V = ZipEntryView;

    open spec fn view(&self) -> ZipEntryView {
        match self {
            ZipEntry::NotAnArchive(s) => ZipEntryView::NotAnArchive(s@),
            ZipEntry::Missing(s) => ZipEntryView::Missing(s@),
            ZipEntry::Unreadable(s) => ZipEntryView::Unreadable(s@),
            ZipEntry::Data(d) => ZipEntryView::Data(d@),
        }
    }
}

/// What the zip crate reads from an archive's bytes under an entry's name.
pub uninterp spec fn zip_entry(bytes: Seq<u8>, name: Seq<char>) -> ZipEntryView;

/// `zip::ZipArchive::new` over the bytes, then `ZipArchive::by_name`, then the
/// entry read to its end: what comes back, with the error's text where one of
/// them fails, is a function of the bytes and the name alone.
#[verifier::external_body]
fn read_entry(bytes: &[u8], name: &str) -> (r: ZipEntry)
    ensures
        r@ == zip_entry(bytes@, name@),
{
    let mut archive = match zip::ZipArchive::new(Cursor::new(bytes)) {
        Ok(archive) => archive,
        Err(e) => return ZipEntry::NotAnArchive(e.to_string()),
    };
    let mut entry = match archive.by_name(name) {
        Ok(entry) => entry,
        Err(e) => return ZipEntry::Missing(e.to_string()),
    };
    let mut data = Vec::new();
    match entry.read_to_end(&mut data) {
        Ok(_) => ZipEntry::Data(data),
        Err(e) => ZipEntry::Unreadable(e.to_string()),
    }
}

/// `std::str::from_utf8`: the text that the bytes encode, where they are valid
/// UTF-8.
#[verifier::external_body]
fn utf8_text(bytes: &[u8]) -> (r: Option<String>)
    ensures
        r is Some == valid_utf8(bytes@),
        r is Some ==> r->0@ == decode_utf8(bytes@),
{
    match std::str::from_utf8(bytes) {
        Ok(s) => Some(s.to_owned()),
        Err(_) => None,
    }
}

// ------------------------------------------------------------------ npy header

/// The first position at or after `from` of a comma or a closing brace.
pub open spec fn find_close(s: Seq<char>, from: int) -> Option<int>
    decreases s.len() - from,
{
    if from < 0 || from >= s.len() {
        None
    } else if s[from] == ',' || s[from] == '}' {
        Some(from)
    } else {
        find_close(s, from + 1)
    }
}

/// The value of `'key': <value>` in the header's dict literal, up to the next
/// top-level comma or brace; a tuple up to its closing parenthesis.
pub open spec fn dict_entry(header: Seq<char>, key: Seq<char>) -> Option<Seq<char>> {
    let pat = seq!['\''] + key + "':"@;
    match find_from(header, pat, 0) {
        None => None,
        Some(at) => {
            let rest = trim_front(header.skip(at + pat.len()));
            if rest.len() > 0 && rest[0] == '(' {
                match find_from(rest, seq![')'], 0) {
                    None => None,
                    Some(end) => Some(trimmed_text(rest.take(end + 1))),
                }
            } else {
                match find_close(rest, 0) {
                    None => None,
                    Some(end) => Some(trimmed_text(rest.take(end))),
                }
            }
        },
    }
}

fn skip_space(s: &Vec<char>, from: usize) -> (r: Vec<char>)
    requires
        from <= s@.len(),
    ensures
        r@ == trim_front(s@.skip(from as int)),
{
    let mut i: usize = from;
    while i < s.len() && crate::text::is_whitespace(s[i])
        invariant
            from <= i <= s@.len(),
            trim_front(s@.skip(from as int)) == trim_front(s@.skip(i as int)),
        decreases s@.len() - i,
    {
        assert(s@.skip(i as int).drop_first() =~= s@.skip(i + 1));
        i = i + 1;
    }
    assert(s@.skip(i as int) =~= s@.subrange(i as int, s@.len() as int));
    slice_chars(s, i, s.len())
}

/// The value of a key in the header's dict literal.
pub fn dict_value(header: &Vec<char>, key: &str) -> (r: Option<Vec<char>>)
    ensures
        r is Some == dict_entry(header@, key@) is Some,
        r is Some ==> r->0@ == dict_entry(header@, key@)->0,
{
    let mut pat_text: String = String::new();
    pat_text.push('\'');
    pat_text.append(key);
    pat_text.append("':");
    let pat: Vec<char> = chars_of(pat_text.as_str());
    assert(pat@ =~= seq!['\''] + key@ + "':"@);
    match find(header, &pat, 0) {
        None => None,
        Some(at) => {
            assert(at + pat.len() <= header.len());
            let rest: Vec<char> = skip_space(header, at + pat.len());
            if rest.len() > 0 && rest[0] == '(' {
                let mut close: Vec<char> = Vec::new();
                close.push(')');
                assert(close@ =~= seq![')']);
                match find(&rest, &close, 0) {
                    None => None,
                    Some(end) => {
                        assert(rest@.subrange(0, end + 1) =~= rest@.take(end + 1));
                        Some(trim(&slice_chars(&rest, 0, end + 1)))
                    },
                }
            } else {
                let mut end: usize = 0;
                while end < rest.len() && rest[end] != ',' && rest[end] != '}'
                    invariant
                        end <= rest@.len(),
                        find_close(rest@, 0) == find_close(rest@, end as int),
                    decreases rest@.len() - end,
                {
                    end = end + 1;
                }
                if end >= rest.len() {
                    None
                } else {
                    assert(rest@.subrange(0, end as int) =~= rest@.take(end as int));
                    Some(trim(&slice_chars(&rest, 0, end)))
                }
            }
        },
    }
}

/// The number of a text of decimal digits, a leading `+` allowed, where it
/// fits `usize`.
pub open spec fn parsed_size(s: Seq<char>) -> Option<usize> {
    let digits = if s.len() > 0 && s[0] == '+' {
        s.drop_first()
    } else {
        s
    };
    if digits.len() > 0 && all_digits(digits) && value(digits) <= usize::MAX {
        Some(value(digits) as usize)
    } else {
        None
    }
}

/// The non-blank pieces' numbers, or nothing where one is no number.
pub open spec fn parsed_sizes(pieces: Seq<Seq<char>>) -> Option<Seq<usize>>
    decreases pieces.len(),
{
    if pieces.len() == 0 {
        Some(Seq::empty())
    } else {
        match parsed_sizes(pieces.drop_last()) {
            None => None,
            Some(sizes) => {
                let piece = trimmed_text(pieces.last());
                if piece.len() == 0 {
                    Some(sizes)
                } else {
                    match parsed_size(piece) {
                        None => None,
                        Some(n) => Some(sizes.push(n)),
                    }
                }
            },
        }
    }
}

/// A text without leading opening parentheses.
pub open spec fn strip_open(s: Seq<char>) -> Seq<char>
    decreases s.len(),
{
    if s.len() > 0 && s[0] == '(' {
        strip_open(s.drop_first())
    } else {
        s
    }
}

/// A text without trailing closing parentheses.
pub open spec fn strip_close(s: Seq<char>) -> Seq<char>
    decreases s.len(),
{
    if s.len() > 0 && s.last() == ')' {
        strip_close(s.drop_last())
    } else {
        s
    }
}

/// The dimensions of a shape tuple.
pub open spec fn shape_of(src: Seq<char>) -> Option<Seq<usize>> {
    parsed_sizes(split_on(strip_close(strip_open(src)), ','))
}

/// The number of a text of decimal digits.
pub fn parse_usize(s: &Vec<char>) -> (r: Option<usize>)
    ensures
        r == parsed_size(s@),
{
    let from: usize = if s.len() > 0 && s[0] == '+' {
        1
    } else {
        0
    };
    let ghost digits = if from == 1 {
        s@.drop_first()
    } else {
        s@
    };
    assert(digits =~= s@.skip(from as int));
    if s.len() == from {
        return None;
    }
    let mut n: usize = 0;
    let mut i: usize = from;
    let mut fits: bool = true;
    assert(digits.take(0) =~= Seq::empty());
    while i < s.len()
        invariant
            from <= i <= s@.len(),
            digits == s@.skip(from as int),
            digits == (if s@.len() > 0 && s@[0] == '+' {
                s@.drop_first()
            } else {
                s@
            }),
            all_digits(digits.take(i - from)),
            fits ==> n == value(digits.take(i - from)),
            !fits ==> value(digits.take(i - from)) > usize::MAX,
        decreases s@.len() - i,
    {
        let c: char = s[i];
        let ghost now = digits.take(i - from + 1);
        proof {
            assert(now.drop_last() =~= digits.take(i - from));
            assert(now.last() == c);
        }
        if !('0' <= c && c <= '9') {
            assert(digits[i - from] == c);
            assert(!all_digits(digits));
            return None;
        }
        assert(all_digits(now)) by {
            assert forall|k: int| #![trigger now[k]] 0 <= k < now.len() implies crate::text::ascii_digit(
                now[k],
            ) by {
                if k < i - from {
                    assert(now[k] == digits.take(i - from)[k]);
                }
            }
        }
        let d: usize = (c as u32 - 48) as usize;
        if fits {
            match n.checked_mul(10) {
                None => {
                    fits = false;
                },
                Some(m) => match m.checked_add(d) {
                    None => {
                        fits = false;
                    },
                    Some(v) => {
                        n = v;
                    },
                },
            }
        }
        i = i + 1;
    }
    assert(digits.take(i - from) =~= digits);
    if fits {
        Some(n)
    } else {
        None
    }
}

fn parse_shape(src: &Vec<char>) -> (r: Option<Vec<usize>>)
    ensures
        r is Some == shape_of(src@) is Some,
        r is Some ==> r->0@ == shape_of(src@)->0,
{
    let mut from: usize = 0;
    assert(src@.skip(0) =~= src@);
    while from < src.len() && src[from] == '('
        invariant
            from <= src@.len(),
            strip_open(src@) == strip_open(src@.skip(from as int)),
        decreases src@.len() - from,
    {
        assert(src@.skip(from as int).drop_first() =~= src@.skip(from + 1));
        from = from + 1;
    }
    let ghost opened = src@.skip(from as int);
    assert(strip_open(src@) == opened);
    let mut to: usize = src.len();
    assert(opened.take(to - from) =~= opened);
    while to > from && src[to - 1] == ')'
        invariant
            from <= to <= src@.len(),
            opened == src@.skip(from as int),
            strip_close(opened) == strip_close(opened.take(to - from)),
        decreases to,
    {
        assert(opened.take(to - from).last() == src@[to - 1]);
        assert(opened.take(to - from).drop_last() =~= opened.take(to - from - 1));
        to = to - 1;
    }
    proof {
        if to > from {
            assert(opened.take(to - from).last() == src@[to - 1]);
        }
        assert(opened.take(to - from) =~= src@.subrange(from as int, to as int));
    }
    let inner: Vec<char> = slice_chars(src, from, to);
    let pieces: Vec<Vec<char>> = split(&inner, ',');
    let ghost all = char_views(pieces@);
    let mut sizes: Vec<usize> = Vec::new();
    let mut i: usize = 0;
    assert(all.take(0) =~= Seq::empty());
    while i < pieces.len()
        invariant
            i <= pieces@.len(),
            all == char_views(pieces@),
            all == split_on(strip_close(strip_open(src@)), ','),
            parsed_sizes(all.take(i as int)) == Some(sizes@),
        decreases pieces@.len() - i,
    {
        proof {
            assert(all.take(i + 1).drop_last() =~= all.take(i as int));
            assert(all.take(i + 1).last() == pieces@[i as int]@);
        }
        let piece: Vec<char> = trim(&pieces[i]);
        if piece.len() > 0 {
            match parse_usize(&piece) {
                None => {
                    proof {
                        lemma_no_sizes(all, i + 1);
                    }
                    return None;
                },
                Some(n) => {
                    sizes.push(n);
                },
            }
        }
        i = i + 1;
    }
    assert(all.take(i as int) =~= all);
    Some(sizes)
}

proof fn lemma_no_sizes(pieces: Seq<Seq<char>>, n: int)
    requires
        0 <= n <= pieces.len(),
        parsed_sizes(pieces.take(n)) is None,
    ensures
        parsed_sizes(pieces) is None,
    decreases pieces.len() - n,
{
    if n == pieces.len() {
        assert(pieces.take(n) =~= pieces);
    } else {
        assert(pieces.take(n + 1).drop_last() =~= pieces.take(n));
        lemma_no_sizes(pieces, n + 1);
    }
}

// -------------------------------------------------------------------- npy data

/// The product of the dimensions.
pub open spec fn product(shape: Seq<usize>) -> nat
    decreases shape.len(),
{
    if shape.len() == 0 {
        1
    } else {
        product(shape.drop_last()) * shape.last() as nat
    }
}

/// A count of bytes as far as it can be named.
pub open spec fn named_count(n: nat) -> nat {
    if n > u128::MAX {
        u128::MAX as nat
    } else {
        n
    }
}

/// How many bytes of 32-bit samples a shape needs.
pub open spec fn shape_bytes(shape: Seq<usize>) -> nat {
    named_count(product(shape) * 4)
}

/// The 32-bit number at sample `k` of little-endian bytes.
pub open spec fn sample(bytes: Seq<u8>, k: int) -> u32 {
    (bytes[4 * k] + 256 * bytes[4 * k + 1] + 65536 * bytes[4 * k + 2] + 16777216 * bytes[4 * k
        + 3]) as u32
}

/// The samples of little-endian bytes.
pub open spec fn samples(bytes: Seq<u8>) -> Seq<u32> {
    Seq::new(bytes.len() / 4, |k: int| sample(bytes, k))
}

/// Where the header text starts and ends, or why there is none.
pub open spec fn header_range(data: Seq<u8>) -> Result<(int, int), Seq<char>> {
    if data.len() < 10 || data.take(6) != seq![0x93u8, 0x4e, 0x55, 0x4d, 0x50, 0x59] {
        Err("bad npy magic"@)
    } else if data[6] == 1 {
        let len = data[8] + 256 * data[9];
        if 10 + len <= data.len() {
            Ok((10, 10 + len))
        } else {
            Err("truncated npy header"@)
        }
    } else if data[6] == 2 || data[6] == 3 {
        if data.len() < 12 {
            Err("truncated npy header"@)
        } else {
            let len = data[8] + 256 * data[9] + 65536 * data[10] + 16777216 * data[11];
            if 12 + len <= data.len() {
                Ok((12, 12 + len))
            } else {
                Err("truncated npy header"@)
            }
        }
    } else {
        Err("unsupported npy version "@ + dec(data[6] as nat))
    }
}

/// The shape a header declares, or why the array is refused.
pub open spec fn header_shape(header: Seq<char>) -> Result<Seq<usize>, Seq<char>> {
    match dict_entry(header, "descr"@) {
        None => Err("npy header missing descr"@),
        Some(descr) => if descr != "'<f4'"@ {
            Err("dtype "@ + descr + ", expected '<f4'"@)
        } else {
            match dict_entry(header, "fortran_order"@) {
                None => Err("npy header missing fortran_order"@),
                Some(fortran) => if fortran != "False"@ {
                    Err("fortran_order arrays are not supported"@)
                } else {
                    match dict_entry(header, "shape"@) {
                        None => Err("npy header missing shape"@),
                        Some(src) => match shape_of(src) {
                            None => Err("bad shape"@),
                            Some(shape) => Ok(shape),
                        },
                    }
                },
            }
        },
    }
}

/// The samples and the shape of an `.npy` payload, or why it is refused.
pub open spec fn npy_of(data: Seq<u8>) -> Result<(Seq<u32>, Seq<usize>), Seq<char>> {
    match header_range(data) {
        Err(e) => Err(e),
        Ok((start, end)) => {
            let raw = data.subrange(start, end);
            if !valid_utf8(raw) {
                Err("npy header is not utf-8"@)
            } else {
                match header_shape(decode_utf8(raw)) {
                    Err(e) => Err(e),
                    Ok(shape) => {
                        let body = data.skip(end);
                        if body.len() != shape_bytes(shape) {
                            Err(
                                "data is "@ + dec(body.len()) + " bytes, shape needs "@ + dec(
                                    shape_bytes(shape),
                                ),
                            )
                        } else {
                            Ok((samples(body), shape))
                        }
                    },
                }
            }
        },
    }
}

fn locate_header(data: &[u8]) -> (r: Result<(usize, usize), String>)
    ensures
        match header_range(data@) {
            Ok((start, end)) => r is Ok && r->Ok_0.0 == start && r->Ok_0.1 == end && start <= end
                <= data@.len(),
            Err(e) => r is Err && r->Err_0@ == e,
        },
{
    let n: usize = data.len();
    if n < 10 {
        return Err("bad npy magic".to_owned());
    }
    let magic: bool = data[0] == 0x93 && data[1] == 0x4e && data[2] == 0x55 && data[3] == 0x4d
        && data[4] == 0x50 && data[5] == 0x59;
    let ghost want = seq![0x93u8, 0x4e, 0x55, 0x4d, 0x50, 0x59];
    if !magic {
        proof {
            if data@.take(6) == want {
                assert(data@.take(6)[0] == data@[0]);
                assert(data@.take(6)[1] == data@[1]);
                assert(data@.take(6)[2] == data@[2]);
                assert(data@.take(6)[3] == data@[3]);
                assert(data@.take(6)[4] == data@[4]);
                assert(data@.take(6)[5] == data@[5]);
            }
        }
        return Err("bad npy magic".to_owned());
    }
    assert(data@.take(6) =~= want);
    if data[6] == 1 {
        let len: usize = data[8] as usize + 256 * data[9] as usize;
        if len <= n - 10 {
            Ok((10, 10 + len))
        } else {
            Err("truncated npy header".to_owned())
        }
    } else if data[6] == 2 || data[6] == 3 {
        if n < 12 {
            return Err("truncated npy header".to_owned());
        }
        let len: u64 = data[8] as u64 + 256 * data[9] as u64 + 65536 * data[10] as u64 + 16777216
            * data[11] as u64;
        if len <= (n - 12) as u64 {
            Ok((12, 12 + len as usize))
        } else {
            Err("truncated npy header".to_owned())
        }
    } else {
        let mut s: String = "unsupported npy version ".to_owned();
        push_dec(&mut s, data[6] as u128);
        Err(s)
    }
}

fn chars_same(a: &Vec<char>, b: &str) -> (r: bool)
    ensures
        r == (a@ == b@),
{
    let s: String = string_of(a.as_slice(), 0, a.len());
    assert(s@ =~= a@);
    same(s.as_str(), b)
}

fn read_shape(header: &str) -> (r: Result<Vec<usize>, String>)
    ensures
        match header_shape(header@) {
            Ok(shape) => r is Ok && r->Ok_0@ == shape,
            Err(e) => r is Err && r->Err_0@ == e,
        },
{
    let chars: Vec<char> = chars_of(header);
    let descr: Vec<char> = match dict_value(&chars, "descr") {
        Some(v) => v,
        None => {
            return Err("npy header missing descr".to_owned());
        },
    };
    if !chars_same(&descr, "'<f4'") {
        let mut s: String = "dtype ".to_owned();
        let text: String = string_of(descr.as_slice(), 0, descr.len());
        assert(text@ =~= descr@);
        s.append(text.as_str());
        s.append(", expected '<f4'");
        return Err(s);
    }
    let fortran: Vec<char> = match dict_value(&chars, "fortran_order") {
        Some(v) => v,
        None => {
            return Err("npy header missing fortran_order".to_owned());
        },
    };
    if !chars_same(&fortran, "False") {
        return Err("fortran_order arrays are not supported".to_owned());
    }
    let src: Vec<char> = match dict_value(&chars, "shape") {
        Some(v) => v,
        None => {
            return Err("npy header missing shape".to_owned());
        },
    };
    match parse_shape(&src) {
        Some(shape) => Ok(shape),
        None => Err("bad shape".to_owned()),
    }
}

fn times(a: u128, b: u128) -> (r: u128)
    ensures
        r == named_count((a * b) as nat),
{
    match a.checked_mul(b) {
        Some(n) => n,
        None => u128::MAX,
    }
}

proof fn lemma_named_product(a: nat, b: nat)
    ensures
        named_count(named_count(a) * b) == named_count(a * b),
{
    if a > u128::MAX {
        if b == 0 {
            assert(named_count(a) * b == 0) by (nonlinear_arith)
                requires
                    b == 0,
            ;
            assert(a * b == 0) by (nonlinear_arith)
                requires
                    b == 0,
            ;
        } else {
            assert(u128::MAX * b >= u128::MAX) by (nonlinear_arith)
                requires
                    b >= 1,
            ;
            assert(a * b >= a) by (nonlinear_arith)
                requires
                    b >= 1,
                    a >= 0,
            ;
        }
    }
}

fn bytes_needed(shape: &Vec<usize>) -> (n: u128)
    ensures
        n == shape_bytes(shape@),
{
    let mut n: u128 = 1;
    let mut i: usize = 0;
    assert(shape@.take(0) =~= Seq::empty());
    while i < shape.len()
        invariant
            i <= shape@.len(),
            n == named_count(product(shape@.take(i as int))),
        decreases shape@.len() - i,
    {
        proof {
            assert(shape@.take(i + 1).drop_last() =~= shape@.take(i as int));
            lemma_named_product(product(shape@.take(i as int)), shape@[i as int] as nat);
        }
        n = times(n, shape[i] as u128);
        i = i + 1;
    }
    proof {
        assert(shape@.take(i as int) =~= shape@);
        lemma_named_product(product(shape@), 4);
    }
    times(n, 4)
}

fn read_samples(data: &[u8], from: usize) -> (out: Vec<u32>)
    requires
        from <= data@.len(),
    ensures
        out@ == samples(data@.skip(from as int)),
{
    let ghost body = data@.skip(from as int);
    let count: usize = (data.len() - from) / 4;
    let mut out: Vec<u32> = Vec::new();
    let mut k: usize = 0;
    while k < count
        invariant
            from <= data@.len(),
            body == data@.skip(from as int),
            count == body.len() / 4,
            k <= count,
            out@ =~= samples(body).take(k as int),
        decreases count - k,
    {
        assert(from + 4 * k + 3 < data.len());
        let at: usize = from + 4 * k;
        assert(body[4 * k] == data@[at as int]);
        assert(body[4 * k + 1] == data@[at + 1]);
        assert(body[4 * k + 2] == data@[at + 2]);
        assert(body[4 * k + 3] == data@[at + 3]);
        out.push(
            data[at] as u32 + 256 * data[at + 1] as u32 + 65536 * data[at + 2] as u32 + 16777216
                * data[at + 3] as u32,
        );
        k = k + 1;
    }
    assert(samples(body).take(k as int) =~= samples(body));
    out
}

/// Parses one `.npy` payload: magic, version, header dict, raw data.
pub fn parse_npy_f32(data: &[u8]) -> (r: Result<(Vec<u32>, Vec<usize>), String>)
    ensures
        match npy_of(data@) {
            Ok((values, shape)) => r is Ok && r->Ok_0.0@ == values && r->Ok_0.1@ == shape,
            Err(e) => r is Err && r->Err_0@ == e,
        },
{
    let (start, end): (usize, usize) = match locate_header(data) {
        Ok(range) => range,
        Err(e) => {
            return Err(e);
        },
    };
    let raw: &[u8] = vstd::slice::slice_subrange(data, start, end);
    let header: String = match utf8_text(raw) {
        Some(s) => s,
        None => {
            return Err("npy header is not utf-8".to_owned());
        },
    };
    let shape: Vec<usize> = match read_shape(header.as_str()) {
        Ok(shape) => shape,
        Err(e) => {
            return Err(e);
        },
    };
    let have: usize = data.len() - end;
    let need: u128 = bytes_needed(&shape);
    assert(data@.skip(end as int).len() == have);
    if have as u128 != need {
        let mut s: String = "data is ".to_owned();
        push_dec(&mut s, have as u128);
        s.append(" bytes, shape needs ");
        push_dec(&mut s, need);
        return Err(s);
    }
    let values: Vec<u32> = read_samples(data, end);
    Ok((values, shape))
}

// ---------------------------------------------------------------- the archive

/// The array of one entry, given what reading the entry gave.
pub open spec fn array_of(name: Seq<char>, entry: ZipEntryView) -> Result<
    (Seq<u32>, Seq<usize>),
    Seq<char>,
> {
    match entry {
        ZipEntryView::NotAnArchive(e) => Err("not a zip archive: "@ + e),
        ZipEntryView::Missing(e) => Err("missing entry "@ + name + ".npy: "@ + e),
        ZipEntryView::Unreadable(e) => Err("reading "@ + name + ".npy: "@ + e),
        ZipEntryView::Data(d) => match npy_of(d) {
            Ok(array) => Ok(array),
            Err(e) => Err(name + ".npy: "@ + e),
        },
    }
}

/// The dimensions of a shape as text.
pub open spec fn shape_text(shape: Seq<usize>) -> Seq<char> {
    "["@ + joined(shape.map_values(|n: usize| dec(n as nat)), ", "@) + "]"@
}

/// The frame arrays of three entries, or why they are refused: the first entry
/// that fails, then the arrays' shapes.
pub open spec fn prosody_of(
    hop: Fine,
    f0: ZipEntryView,
    rms_db: ZipEntryView,
    mfcc: ZipEntryView,
) -> Result<(Seq<u32>, Seq<u32>, Seq<u32>), Seq<char>> {
    match array_of("f0"@, f0) {
        Err(e) => Err(e),
        Ok((f0_values, f0_shape)) => match array_of("rms_db"@, rms_db) {
            Err(e) => Err(e),
            Ok((rms_values, rms_shape)) => match array_of("mfcc"@, mfcc) {
                Err(e) => Err(e),
                Ok((mfcc_values, mfcc_shape)) => if f0_shape.len() != 1 || rms_shape.len() != 1 {
                    Err("f0 and rms_db must be 1-D"@)
                } else if mfcc_shape.len() != 2 || mfcc_shape[1] != MFCC_DIM {
                    Err("mfcc shape "@ + shape_text(mfcc_shape) + ", expected [n, 13]"@)
                } else {
                    Ok((f0_values, rms_values, mfcc_values))
                },
            },
        },
    }
}

/// The array of one entry, given what reading the entry gave.
pub fn read_array(name: &str, entry: &ZipEntry) -> (r: Result<(Vec<u32>, Vec<usize>), String>)
    ensures
        match array_of(name@, entry@) {
            Ok((values, shape)) => r is Ok && r->Ok_0.0@ == values && r->Ok_0.1@ == shape,
            Err(e) => r is Err && r->Err_0@ == e,
        },
{
    match entry {
        ZipEntry::NotAnArchive(e) => {
            let mut s: String = "not a zip archive: ".to_owned();
            s.append(e.as_str());
            Err(s)
        },
        ZipEntry::Missing(e) => {
            let mut s: String = "missing entry ".to_owned();
            s.append(name);
            s.append(".npy: ");
            s.append(e.as_str());
            Err(s)
        },
        ZipEntry::Unreadable(e) => {
            let mut s: String = "reading ".to_owned();
            s.append(name);
            s.append(".npy: ");
            s.append(e.as_str());
            Err(s)
        },
        ZipEntry::Data(d) => match parse_npy_f32(d.as_slice()) {
            Ok(array) => Ok(array),
            Err(e) => {
                let mut s: String = name.to_owned();
                s.append(".npy: ");
                s.append(e.as_str());
                Err(s)
            },
        },
    }
}

fn fmt_shape(shape: &Vec<usize>) -> (s: String)
    ensures
        s@ == shape_text(shape@),
{
    let ghost all = shape@.map_values(|n: usize| dec(n as nat));
    let mut parts: Vec<String> = Vec::new();
    let mut i: usize = 0;
    while i < shape.len()
        invariant
            i <= shape@.len(),
            all == shape@.map_values(|n: usize| dec(n as nat)),
            texts(parts@) =~= all.take(i as int),
        decreases shape@.len() - i,
    {
        let ghost before = texts(parts@);
        let mut part: String = String::new();
        push_dec(&mut part, shape[i] as u128);
        assert(part@ =~= dec(shape@[i as int] as nat));
        parts.push(part);
        assert(texts(parts@) =~= before.push(part@));
        i = i + 1;
    }
    assert(all.take(i as int) =~= all);
    let mut s: String = "[".to_owned();
    s.append(join(&parts, ", ").as_str());
    s.append("]");
    s
}

/// The frame arrays of an archive's three entries.
pub fn prosody_from_entries(hop: Fine, f0: &ZipEntry, rms_db: &ZipEntry, mfcc: &ZipEntry) -> (r:
    Result<ProsodyData, CorpusError>)
    ensures
        match prosody_of(hop, f0@, rms_db@, mfcc@) {
            Ok((f0_values, rms_values, mfcc_values)) => {
                &&& r is Ok
                &&& r->Ok_0.hop == hop
                &&& r->Ok_0.f0@ == f0_values
                &&& r->Ok_0.rms_db@ == rms_values
                &&& r->Ok_0.mfcc@ == mfcc_values
            },
            Err(e) => r is Err && r->Err_0@ == CorpusFault::Npz(e),
        },
{
    let (f0_values, f0_shape): (Vec<u32>, Vec<usize>) = match read_array("f0", f0) {
        Ok(array) => array,
        Err(e) => {
            return Err(CorpusError::Npz(e));
        },
    };
    let (rms_values, rms_shape): (Vec<u32>, Vec<usize>) = match read_array("rms_db", rms_db) {
        Ok(array) => array,
        Err(e) => {
            return Err(CorpusError::Npz(e));
        },
    };
    let (mfcc_values, mfcc_shape): (Vec<u32>, Vec<usize>) = match read_array("mfcc", mfcc) {
        Ok(array) => array,
        Err(e) => {
            return Err(CorpusError::Npz(e));
        },
    };
    if f0_shape.len() != 1 || rms_shape.len() != 1 {
        return Err(CorpusError::Npz("f0 and rms_db must be 1-D".to_owned()));
    }
    if mfcc_shape.len() != 2 || mfcc_shape[1] != MFCC_DIM {
        let mut s: String = "mfcc shape ".to_owned();
        s.append(fmt_shape(&mfcc_shape).as_str());
        s.append(", expected [n, 13]");
        return Err(CorpusError::Npz(s));
    }
    Ok(ProsodyData { hop, f0: f0_values, rms_db: rms_values, mfcc: mfcc_values })
}

/// Parses the three frame arrays out of `prosody.npz` bytes. `hop` comes from
/// the manifest; frame-count agreement with the manifest is the loader's check.
pub fn prosody_from_npz(bytes: &[u8], hop: Fine) -> (r: Result<ProsodyData, CorpusError>)
    ensures
        match prosody_of(
            hop,
            zip_entry(bytes@, "f0.npy"@),
            zip_entry(bytes@, "rms_db.npy"@),
            zip_entry(bytes@, "mfcc.npy"@),
        ) {
            Ok((f0_values, rms_values, mfcc_values)) => {
                &&& r is Ok
                &&& r->Ok_0.hop == hop
                &&& r->Ok_0.f0@ == f0_values
                &&& r->Ok_0.rms_db@ == rms_values
                &&& r->Ok_0.mfcc@ == mfcc_values
            },
            Err(e) => r is Err && r->Err_0@ == CorpusFault::Npz(e),
        },
{
    let f0: ZipEntry = read_entry(bytes, "f0.npy");
    let rms_db: ZipEntry = read_entry(bytes, "rms_db.npy");
    let mfcc: ZipEntry = read_entry(bytes, "mfcc.npy");
    prosody_from_entries(hop, &f0, &rms_db, &mfcc)
}

// ---------------------------------------------------------------------- laws

/// An array that is accepted fills its payload: behind the magic, a version from one
/// to three and the header, it holds exactly as many samples as its shape has
/// places, lowest byte first.
pub proof fn law_accepted_arrays_fill_their_payload(data: Seq<u8>, k: int) -> (at: int)
    requires
        npy_of(data) is Ok,
        product(npy_of(data)->Ok_0.1) * 4 <= u128::MAX,
    ensures
        ({
            let (xs, shape) = npy_of(data)->Ok_0;
            &&& data[0] == 0x93 && data[1] == 0x4e && data[2] == 0x55 && data[3] == 0x4d && data[4]
                == 0x50 && data[5] == 0x59
            &&& 1 <= data[6] <= 3
            &&& data[6] == 1 ==> at == 10 + data[8] + 256 * data[9]
            &&& data[6] != 1 ==> at == 12 + data[8] + 256 * data[9] + 65536 * data[10] + 16777216
                * data[11]
            &&& xs.len() == product(shape)
            &&& data.len() == at + 4 * xs.len()
            &&& 0 <= k < xs.len() ==> xs[k] == data[at + 4 * k] + 256 * data[at + 4 * k + 1] + 65536
                * data[at + 4 * k + 2] + 16777216 * data[at + 4 * k + 3]
        }),
{
    let at = header_range(data)->Ok_0.1;
    let magic = seq![0x93u8, 0x4e, 0x55, 0x4d, 0x50, 0x59];
    assert(data.take(6)[0] == data[0] && data.take(6)[1] == data[1] && data.take(6)[2] == data[2]);
    assert(data.take(6)[3] == data[3] && data.take(6)[4] == data[4] && data.take(6)[5] == data[5]);
    assert(magic[0] == 0x93u8 && magic[5] == 0x59u8);
    let (xs, shape) = npy_of(data)->Ok_0;
    let body = data.skip(at);
    assert(body.len() == 4 * product(shape));
    assert(xs.len() == product(shape));
    if 0 <= k < xs.len() {
        assert(body[4 * k] == data[at + 4 * k]);
        assert(body[4 * k + 1] == data[at + 4 * k + 1]);
        assert(body[4 * k + 2] == data[at + 4 * k + 2]);
        assert(body[4 * k + 3] == data[at + 4 * k + 3]);
    }
    at
}

/// A shape has as many places as its dimensions multiply to.
pub proof fn law_places_multiply(a: usize, b: usize)
    ensures
        product(seq![a]) == a,
        product(seq![a, b]) == a * b,
{
    assert(seq![a].drop_last() =~= Seq::empty());
    assert(seq![a, b].drop_last() =~= seq![a]);
    assert(product(Seq::<usize>::empty()) == 1);
    assert(seq![a].last() == a && seq![a, b].last() == b);
    assert(product(seq![a]) == product(Seq::<usize>::empty()) * a as nat);
    assert(1 * a as nat == a) by (nonlinear_arith);
}

/// Frames are accepted iff the three arrays are, with one, one and two dimensions,
/// the second of which is thirteen; then they are the arrays' own.
pub proof fn law_frames_come_from_their_entries(
    hop: Fine,
    f0: ZipEntryView,
    rms_db: ZipEntryView,
    mfcc: ZipEntryView,
)
    ensures
        ({
            let (a, b, c) = (array_of("f0"@, f0), array_of("rms_db"@, rms_db), array_of("mfcc"@, mfcc));
            let r = prosody_of(hop, f0, rms_db, mfcc);
            &&& r is Ok <==> a is Ok && b is Ok && c is Ok && a->Ok_0.1.len() == 1
                && b->Ok_0.1.len() == 1 && c->Ok_0.1.len() == 2 && c->Ok_0.1[1] == 13
            &&& r is Ok ==> r->Ok_0 == (a->Ok_0.0, b->Ok_0.0, c->Ok_0.0)
            &&& a is Ok ==> f0 is Data && a->Ok_0 == npy_of(f0->Data_0)->Ok_0
            &&& b is Ok ==> rms_db is Data && b->Ok_0 == npy_of(rms_db->Data_0)->Ok_0
            &&& c is Ok ==> mfcc is Data && c->Ok_0 == npy_of(mfcc->Data_0)->Ok_0
        }),
{
}

/// An entry of a header is what stands between its name and the next comma or brace;
/// a tuple is what stands up to its closing bracket, with both brackets.
pub proof fn law_entries_end_at_their_comma(
    before: Seq<char>,
    key: Seq<char>,
    value: Seq<char>,
    close: char,
    rest: Seq<char>,
)
    requires
        value.len() > 0,
        forall|i: int|
            #![trigger value[i]]
            0 <= i < value.len() ==> value[i] != ',' && value[i] != '}' && value[i] != ')',
        !crate::text::whitespace(value[0]),
        !crate::text::whitespace(value.last()),
        find_from(
            before + (seq!['\''] + key + "':"@) + value.push(close) + rest,
            seq!['\''] + key + "':"@,
            0,
        ) == Some(before.len() as int),
    ensures
        ({
            let header = before + (seq!['\''] + key + "':"@) + value.push(close) + rest;
            &&& value[0] != '(' && (close == ',' || close == '}') ==> dict_entry(header, key)
                == Some(value)
            &&& value[0] == '(' && close == ')' ==> dict_entry(header, key) == Some(value.push(')'))
        }),
{
    let pat = seq!['\''] + key + "':"@;
    let body = value.push(close) + rest;
    let header = before + pat + value.push(close) + rest;
    let n = value.len() as int;
    assert(header.skip((before.len() + pat.len()) as int) =~= body);
    assert(body[0] == value[0]);
    assert(trim_front(body) == body);
    if value[0] != '(' && (close == ',' || close == '}') {
        lemma_close_at(value, close, rest, 0);
        assert(body.take(n) =~= value);
        lemma_untrimmed(value);
    }
    if value[0] == '(' && close == ')' {
        lemma_bracket_at(value, rest, 0);
        assert(body.take(n + 1) =~= value.push(')'));
        lemma_untrimmed(value.push(')'));
    }
}

proof fn lemma_untrimmed(s: Seq<char>)
    requires
        s.len() > 0,
        !crate::text::whitespace(s[0]),
        !crate::text::whitespace(s.last()),
    ensures
        trimmed_text(s) == s,
{
}

proof fn lemma_close_at(value: Seq<char>, close: char, rest: Seq<char>, from: int)
    requires
        0 <= from <= value.len(),
        close == ',' || close == '}',
        forall|i: int|
            #![trigger value[i]]
            0 <= i < value.len() ==> value[i] != ',' && value[i] != '}',
    ensures
        find_close(value.push(close) + rest, from) == Some(value.len() as int),
    decreases value.len() - from,
{
    let s = value.push(close) + rest;
    if from < value.len() {
        assert(s[from] == value[from]);
        lemma_close_at(value, close, rest, from + 1);
    } else {
        assert(s[from] == close);
    }
}

proof fn lemma_bracket_at(value: Seq<char>, rest: Seq<char>, from: int)
    requires
        0 <= from <= value.len(),
        forall|i: int| #![trigger value[i]] 0 <= i < value.len() ==> value[i] != ')',
    ensures
        find_from(value.push(')') + rest, seq![')'], from) == Some(value.len() as int),
    decreases value.len() - from,
{
    let s = value.push(')') + rest;
    assert(s.subrange(from, from + 1)[0] == s[from]);
    if from < value.len() {
        assert(s[from] == value[from]);
        lemma_bracket_at(value, rest, from + 1);
    } else {
        assert(s.subrange(from, from + 1) =~= seq![')']);
    }
}

/// A header is accepted iff it declares little-endian 32-bit floats, in C order, with
/// a shape of numbers.
pub proof fn law_headers_declare_plain_floats(header: Seq<char>)
    ensures
        header_shape(header) is Ok <==> dict_entry(header, "descr"@) == Some("'<f4'"@)
            && dict_entry(header, "fortran_order"@) == Some("False"@) && dict_entry(
            header,
            "shape"@,
        ) is Some && shape_of(dict_entry(header, "shape"@)->0) is Some,
        header_shape(header) matches Ok(shape) ==> Some(shape) == shape_of(
            dict_entry(header, "shape"@)->0,
        ),
{
}

/// A tuple of one or two numbers is the shape with these dimensions.
pub proof fn law_shapes_read_back(a: usize, b: usize)
    ensures
        shape_of("("@ + dec(a as nat) + ",)"@) == Some(seq![a]),
        shape_of("("@ + dec(a as nat) + ", "@ + dec(b as nat) + ")"@) == Some(seq![a, b]),
{
    let (x, y) = (dec(a as nat), dec(b as nat));
    crate::text::law_numerals_read_back(a as nat);
    crate::text::law_numerals_read_back(b as nat);
    reveal_strlit("(");
    reveal_strlit(",)");
    reveal_strlit(", ");
    reveal_strlit(")");
    assert(crate::text::ascii_digit(x[0]));
    assert(crate::text::ascii_digit(y[0]));
    assert(crate::text::ascii_digit(y[y.len() - 1]));
    let s = "("@ + x + ",)"@;
    let (t, empty) = (x.push(','), Seq::<char>::empty());
    assert(s.drop_first() =~= t.push(')'));
    assert(t.push(')').drop_last() =~= t);
    assert(t.push(')')[0] == x[0]);
    assert(s[0] == '(');
    assert(strip_open(t.push(')')) == t.push(')'));
    assert(strip_open(s) == t.push(')'));
    assert(strip_close(t) == t);
    assert(strip_close(t.push(')')) == t);
    lemma_two_pieces(x, empty);
    assert(t =~= x.push(',') + empty);
    lemma_sizes(a, seq![], x, empty);
    let u = "("@ + x + ", "@ + y + ")"@;
    let v = x.push(',') + (seq![' '] + y);
    assert(u.drop_first() =~= v.push(')'));
    assert(v.push(')').drop_last() =~= v);
    assert(v.push(')')[0] == x[0]);
    assert(v.last() == y[y.len() - 1]);
    assert(u[0] == '(');
    assert(strip_open(v.push(')')) == v.push(')'));
    assert(strip_open(u) == v.push(')'));
    assert(strip_close(v) == v);
    assert(strip_close(v.push(')')) == v);
    lemma_two_pieces(x, seq![' '] + y);
    let w = seq![' '] + y;
    assert(w.drop_first() =~= y);
    assert(w[0] == ' ');
    assert(trim_front(y) == y);
    assert(trim_front(w) == y);
    assert(trimmed_text(w) == y);
    lemma_sizes(a, seq![b], x, w);
}

proof fn lemma_sizes(a: usize, more: Seq<usize>, x: Seq<char>, y: Seq<char>)
    requires
        x == dec(a as nat),
        more.len() == 0 ==> trimmed_text(y).len() == 0,
        more.len() > 0 ==> more.len() == 1 && trimmed_text(y) == dec(more[0] as nat),
    ensures
        parsed_sizes(seq![x, y]) == Some(seq![a] + more),
{
    let two = seq![x, y];
    let one = seq![x];
    assert(two.drop_last() =~= one);
    assert(one.drop_last() =~= Seq::empty());
    assert(two.last() == y && one.last() == x);
    crate::text::law_numerals_read_back(a as nat);
    assert(crate::text::ascii_digit(x[0]));
    assert(crate::text::ascii_digit(x[x.len() - 1]));
    lemma_untrimmed(x);
    assert(parsed_sizes(one.drop_last()) == Some(Seq::<usize>::empty()));
    assert(parsed_size(x) == Some(a));
    assert(Seq::empty().push(a) =~= seq![a]);
    assert(parsed_sizes(one) == Some(seq![a]));
    if more.len() > 0 {
        let z = dec(more[0] as nat);
        crate::text::law_numerals_read_back(more[0] as nat);
        assert(crate::text::ascii_digit(z[0]));
        assert(parsed_size(z) == Some(more[0]));
        assert(seq![a].push(more[0]) =~= seq![a] + more);
    } else {
        assert(seq![a] + more =~= seq![a]);
    }
}

proof fn lemma_two_pieces(a: Seq<char>, b: Seq<char>)
    requires
        all_digits(a),
        forall|i: int| #![trigger b[i]] 0 <= i < b.len() ==> b[i] != ',',
    ensures
        split_on(a.push(',') + b, ',') == seq![a, b],
    decreases b.len(),
{
    let s = a.push(',') + b;
    if b.len() == 0 {
        assert(b =~= Seq::empty());
        assert(s =~= a.push(','));
        assert(s.drop_last() =~= a);
        lemma_one_piece(a);
        assert(s.last() == ',');
        assert(split_on(s, ',') =~= seq![a, b]);
    } else {
        let c = b.drop_last();
        assert forall|i: int| #![trigger c[i]] 0 <= i < c.len() implies c[i] != ',' by {
            assert(b[i] == c[i]);
        }
        lemma_two_pieces(a, c);
        assert(s.drop_last() =~= a.push(',') + c);
        assert(s.last() == b[b.len() - 1]);
        assert(c.push(s.last()) =~= b);
        assert(seq![a, c].drop_last() =~= seq![a]);
        assert(seq![a].push(b) =~= seq![a, b]);
        assert(split_on(s, ',') =~= seq![a, b]);
    }
}

proof fn lemma_one_piece(a: Seq<char>)
    requires
        all_digits(a),
    ensures
        split_on(a, ',') == seq![a],
    decreases a.len(),
{
    if a.len() > 0 {
        let c = a.drop_last();
        assert forall|i: int| #![trigger c[i]] 0 <= i < c.len() implies crate::text::ascii_digit(
            c[i],
        ) by {
            assert(a[i] == c[i]);
        }
        lemma_one_piece(c);
        assert(crate::text::ascii_digit(a[a.len() - 1]));
        assert(c.push(a.last()) =~= a);
        assert(split_on(a, ',') =~= seq![a]);
    } else {
        assert(a =~= Seq::empty());
        assert(split_on(a, ',') =~= seq![a]);
    }
}

} // verus!
