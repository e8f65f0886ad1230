//! Strings as sequences of characters: decimal numerals, joining, and the
//! character classes the rest of the library reads text by.
use vstd::prelude::*;
use vstd::string::StringExecFns;

verus! {

/// `String::push` appends one character to the end of the string.
pub assume_specification[ String::push ](s: &mut String, c: char)
    ensures
        final(s)@ == old(s)@.push(c),
;

/// The decimal digit `d`, for `d` below ten.
pub open spec fn digit(d: int) -> char {
    (48 + d) as u8 as char
}

/// The decimal numeral of `n`, without leading zeros.
pub open spec fn dec(n: nat) -> Seq<char>
    decreases n,
{
    if n < 10 {
        seq![digit(n as int)]
    } else {
        dec(n / 10).push(digit((n % 10) as int))
    }
}

/// The last `width` decimal digits of `n`, with leading zeros.
pub open spec fn padded(n: nat, width: nat) -> Seq<char>
    decreases width,
{
    if width == 0 {
        Seq::empty()
    } else {
        padded(n / 10, (width - 1) as nat).push(digit((n % 10) as int))
    }
}

/// The decimal numeral of `n`, with a minus sign where it is negative.
pub open spec fn signed_dec(n: int) -> Seq<char> {
    if n < 0 {
        seq!['-'] + dec((-n) as nat)
    } else {
        dec(n as nat)
    }
}

/// The parts in order, with `sep` between neighbours.
pub open spec fn joined(parts: Seq<Seq<char>>, sep: Seq<char>) -> Seq<char>
    decreases parts.len(),
{
    if parts.len() == 0 {
        Seq::empty()
    } else if parts.len() == 1 {
        parts[0]
    } else {
        joined(parts.drop_last(), sep) + sep + parts.last()
    }
}

/// The character sequences of a list of strings.
pub open spec fn texts(v: Seq<String>) -> Seq<Seq<char>> {
    Seq::new(v.len(), |i: int| v[i]@)
}

/// What `Debug` writes for a string: the text in quotation marks, with
/// escapes.
pub uninterp spec fn debug_text(s: Seq<char>) -> Seq<char>;

/// Whether `Debug` writes a character as it is inside a string: printable
/// ASCII other than the quotation mark and the backslash.
pub open spec fn plain(c: char) -> bool {
    ' ' <= c <= '~' && c != '"' && c != '\\'
}

/// `<str as Debug>::fmt`, through `format!("{:?}")`: the result is a function
/// of the text. A text of printable ASCII without quotation marks and
/// backslashes comes back between two quotation marks, otherwise unchanged.
#[verifier::external_body]
pub(crate) fn quoted(s: &str) -> (r: String)
    ensures
        r@ == debug_text(s@),
        (forall|i: int| 0 <= i < s@.len() ==> plain(#[trigger] s@[i])) ==> r@ == seq!['"'] + s@
            + seq!['"'],
{
    format!("{:?}", s)
}

/// The digit character of `d`.
pub fn digit_char(d: u8) -> (c: char)
    requires
        d < 10,
    ensures
        c == digit(d as int),
{
    (48 + d) as char
}

/// Appends the decimal numeral of `n`.
pub fn push_dec(out: &mut String, n: u128)
    ensures
        final(out)@ == old(out)@ + dec(n as nat),
{
    let mut digits: Vec<char> = Vec::new();
    let mut rest: u128 = n;
    while rest >= 10
        invariant
            dec(n as nat) =~= dec(rest as nat) + digits@.reverse(),
        decreases rest,
    {
        let d: u8 = (rest % 10) as u8;
        digits.push(digit_char(d));
        rest = rest / 10;
    }
    digits.push(digit_char(rest as u8));
    assert(dec(n as nat) =~= digits@.reverse());
    let mut i: usize = digits.len();
    let ghost all = digits@.reverse();
    while i > 0
        invariant
            i <= digits@.len(),
            all == digits@.reverse(),
            out@ =~= old(out)@ + all.take(digits@.len() - i),
        decreases i,
    {
        i = i - 1;
        out.push(digits[i]);
        assert(all.take(digits@.len() - i) =~= all.take(digits@.len() - i - 1).push(digits@[i as int]));
    }
    assert(all.take(digits@.len() as int) =~= all);
}

/// Appends the last `width` decimal digits of `n`, zeros included.
pub fn push_padded(out: &mut String, n: u128, width: usize)
    ensures
        final(out)@ == old(out)@ + padded(n as nat, width as nat),
    decreases width,
{
    if width > 0 {
        push_padded(out, n / 10, width - 1);
        out.push(digit_char((n % 10) as u8));
        assert(out@ =~= old(out)@ + padded(n as nat, width as nat));
    } else {
        assert(out@ =~= old(out)@ + padded(n as nat, 0));
    }
}

/// Appends the decimal numeral of `n`, with its sign.
pub fn push_signed(out: &mut String, n: i64)
    ensures
        final(out)@ == old(out)@ + signed_dec(n as int),
{
    if n < 0 {
        out.push('-');
        push_dec(out, (-(n as i128)) as u128);
        assert(out@ =~= old(out)@ + signed_dec(n as int));
    } else {
        push_dec(out, n as u128);
    }
}

/// The characters of a string.
pub fn chars_of(s: &str) -> (v: Vec<char>)
    ensures
        v@ == s@,
{
    let mut v: Vec<char> = Vec::new();
    for c in it: s.chars()
        invariant
            it.seq() == s@,
            v@ == s@.take(it.index()),
    {
        v.push(c);
        assert(s@.take(it.index() + 1) =~= s@.take(it.index()).push(c));
    }
    assert(s@.take(s@.len() as int) =~= s@);
    v
}

/// The string of a range of characters.
pub fn string_of(chars: &[char], from: usize, to: usize) -> (s: String)
    requires
        from <= to <= chars@.len(),
    ensures
        s@ == chars@.subrange(from as int, to as int),
{
    let mut s: String = String::new();
    let mut i: usize = from;
    while i < to
        invariant
            from <= i <= to <= chars@.len(),
            s@ =~= chars@.subrange(from as int, i as int),
        decreases to - i,
    {
        s.push(chars[i]);
        i = i + 1;
    }
    s
}

/// The strings in order, with `sep` between neighbours.
pub fn join(parts: &Vec<String>, sep: &str) -> (s: String)
    ensures
        s@ == joined(texts(parts@), sep@),
{
    let mut s: String = String::new();
    let mut i: usize = 0;
    while i < parts.len()
        invariant
            i <= parts@.len(),
            s@ == joined(texts(parts@).take(i as int), sep@),
        decreases parts@.len() - i,
    {
        if i > 0 {
            s.append(sep);
        }
        s.append(parts[i].as_str());
        proof {
            let now = texts(parts@).take(i + 1);
            assert(now.drop_last() =~= texts(parts@).take(i as int));
            if i == 0 {
                assert(s@ =~= parts@[0]@);
            } else {
                assert(s@ =~= joined(now.drop_last(), sep@) + sep@ + now.last());
            }
        }
        i = i + 1;
    }
    assert(texts(parts@).take(parts@.len() as int) =~= texts(parts@));
    s
}

/// Appends a copy of `s` to a list of strings.
pub fn push_arg(v: &mut Vec<String>, s: &str)
    ensures
        texts(final(v)@) == texts(old(v)@).push(s@),
{
    v.push(s.to_owned());
    assert(texts(v@) =~= texts(old(v)@).push(s@));
}

/// Whether two strings hold the same characters.
pub fn same(a: &str, b: &str) -> (r: bool)
    ensures
        r == (a@ == b@),
{
    a.to_owned() == b.to_owned()
}

/// Unicode white space.
pub open spec fn whitespace(c: char) -> bool {
    ||| 0x09 <= c as u32 <= 0x0d
    ||| c as u32 == 0x20
    ||| c as u32 == 0x85
    ||| c as u32 == 0xa0
    ||| c as u32 == 0x1680
    ||| 0x2000 <= c as u32 <= 0x200a
    ||| c as u32 == 0x2028
    ||| c as u32 == 0x2029
    ||| c as u32 == 0x202f
    ||| c as u32 == 0x205f
    ||| c as u32 == 0x3000
}

/// The Unicode control characters.
pub open spec fn control(c: char) -> bool {
    c as u32 <= 0x1f || 0x7f <= c as u32 <= 0x9f
}

/// A copy of a list of strings.
pub fn clone_texts(v: &Vec<String>) -> (out: Vec<String>)
    ensures
        texts(out@) == texts(v@),
{
    let mut out: Vec<String> = Vec::new();
    let mut i: usize = 0;
    assert(texts(out@) =~= texts(v@).take(0));
    while i < v.len()
        invariant
            i <= v@.len(),
            texts(out@) == texts(v@).take(i as int),
        decreases v@.len() - i,
    {
        let ghost before = texts(out@);
        let s: String = v[i].as_str().to_owned();
        out.push(s);
        assert(texts(out@) =~= before.push(s@));
        assert(texts(v@).take(i + 1) =~= before.push(s@));
        i = i + 1;
    }
    assert(texts(v@).take(i as int) =~= texts(v@));
    out
}

/// Whether `c` is white space.
pub fn is_whitespace(c: char) -> (r: bool)
    ensures
        r == whitespace(c),
{
    let u: u32 = c as u32;
    (0x09 <= u && u <= 0x0d) || u == 0x20 || u == 0x85 || u == 0xa0 || u == 0x1680 || (0x2000 <= u
        && u <= 0x200a) || u == 0x2028 || u == 0x2029 || u == 0x202f || u == 0x205f || u == 0x3000
}

/// Whether `c` is a control character.
pub fn is_control(c: char) -> (r: bool)
    ensures
        r == control(c),
{
    let u: u32 = c as u32;
    u <= 0x1f || (0x7f <= u && u <= 0x9f)
}

/// The decimal digits.
pub open spec fn ascii_digit(c: char) -> bool {
    '0' <= c <= '9'
}

/// All characters are decimal digits.
pub open spec fn all_digits(s: Seq<char>) -> bool {
    forall|i: int| #![trigger s[i]] 0 <= i < s.len() ==> ascii_digit(s[i])
}

/// The value of a run of decimal digits.
pub open spec fn value(digits: Seq<char>) -> nat
    decreases digits.len(),
{
    if digits.len() == 0 {
        0
    } else {
        value(digits.drop_last()) * 10 + (digits.last() as u32 - 48) as nat
    }
}

/// The lower-case form of an ASCII character.
pub open spec fn ascii_lower(c: char) -> char {
    if 'A' <= c <= 'Z' {
        (c as u8 + 32) as char
    } else {
        c
    }
}

/// Whether `pat` stands in `s` at position `i`.
pub open spec fn stands_at(s: Seq<char>, pat: Seq<char>, i: int) -> bool {
    0 <= i && i + pat.len() <= s.len() && s.subrange(i, i + pat.len()) == pat
}

/// Whether a text begins with another.
pub open spec fn begins(s: Seq<char>, prefix: Seq<char>) -> bool {
    prefix.len() <= s.len() && s.take(prefix.len() as int) == prefix
}

/// A text without a prefix, where it begins with it.
pub open spec fn without_prefix(s: Seq<char>, prefix: Seq<char>) -> Seq<char> {
    if begins(s, prefix) {
        s.skip(prefix.len() as int)
    } else {
        s
    }
}

/// Whether a text begins with another.
pub fn begins_with(s: &Vec<char>, prefix: &str) -> (b: bool)
    ensures
        b == begins(s@, prefix@),
{
    let p: Vec<char> = chars_of(prefix);
    if p.len() > s.len() {
        return false;
    }
    let mut i: usize = 0;
    while i < p.len()
        invariant
            i <= p@.len() <= s@.len(),
            p@ == prefix@,
            forall|k: int| 0 <= k < i ==> s@[k] == #[trigger] p@[k],
        decreases p@.len() - i,
    {
        if s[i] != p[i] {
            assert(s@.take(p@.len() as int)[i as int] != p@[i as int]);
            return false;
        }
        i = i + 1;
    }
    assert(s@.take(p@.len() as int) =~= p@);
    true
}

/// A text without a prefix, where it begins with it.
pub fn strip_prefix(s: &Vec<char>, prefix: &str) -> (r: Vec<char>)
    ensures
        r@ == without_prefix(s@, prefix@),
{
    if begins_with(s, prefix) {
        let n: usize = chars_of(prefix).len();
        let rest: Vec<char> = slice_chars(s, n, s.len());
        assert(rest@ =~= s@.skip(n as int));
        rest
    } else {
        let whole: Vec<char> = slice_chars(s, 0, s.len());
        assert(whole@ =~= s@);
        whole
    }
}

/// The first position at or after `from` where `pat` stands in `s`.
pub open spec fn find_from(s: Seq<char>, pat: Seq<char>, from: int) -> Option<int>
    decreases s.len() - from + 1,
{
    if from < 0 || from + pat.len() > s.len() {
        None
    } else if stands_at(s, pat, from) {
        Some(from)
    } else {
        find_from(s, pat, from + 1)
    }
}

/// A text without leading white space.
pub open spec fn trim_front(s: Seq<char>) -> Seq<char>
    decreases s.len(),
{
    if s.len() > 0 && whitespace(s[0]) {
        trim_front(s.drop_first())
    } else {
        s
    }
}

/// A text without trailing white space.
pub open spec fn trim_back(s: Seq<char>) -> Seq<char>
    decreases s.len(),
{
    if s.len() > 0 && whitespace(s.last()) {
        trim_back(s.drop_last())
    } else {
        s
    }
}

/// A text without white space at either end.
pub open spec fn trimmed_text(s: Seq<char>) -> Seq<char> {
    trim_back(trim_front(s))
}

/// The pieces of a text between separators, empty ones included.
pub open spec fn split_on(s: Seq<char>, sep: char) -> Seq<Seq<char>>
    decreases s.len(),
{
    if s.len() == 0 {
        seq![Seq::empty()]
    } else {
        let before = split_on(s.drop_last(), sep);
        if s.last() == sep {
            before.push(Seq::empty())
        } else {
            before.drop_last().push(before.last().push(s.last()))
        }
    }
}

fn matches_at(s: &Vec<char>, pat: &Vec<char>, i: usize) -> (r: bool)
    requires
        i + pat@.len() <= s@.len(),
    ensures
        r == stands_at(s@, pat@, i as int),
{
    let mut k: usize = 0;
    while k < pat.len()
        invariant
            k <= pat@.len(),
            i + pat@.len() <= s@.len(),
            forall|j: int| #![trigger pat@[j]] 0 <= j < k ==> s@[i + j] == pat@[j],
        decreases pat@.len() - k,
    {
        assert(i + k < s.len());
        if s[i + k] != pat[k] {
            assert(s@.subrange(i as int, i + pat@.len())[k as int] == s@[i + k]);
            return false;
        }
        k = k + 1;
    }
    assert(s@.subrange(i as int, i + pat@.len()) =~= pat@);
    true
}

/// The first position at or after `from` where `pat` stands in `s`.
pub fn find(s: &Vec<char>, pat: &Vec<char>, from: usize) -> (r: Option<usize>)
    requires
        from <= s@.len(),
    ensures
        r is Some == find_from(s@, pat@, from as int) is Some,
        r is Some ==> r->0 == find_from(s@, pat@, from as int)->0 && r->0 + pat@.len()
            <= s@.len(),
{
    let mut i: usize = from;
    while pat.len() <= s.len() - i
        invariant
            from <= i <= s@.len(),
            find_from(s@, pat@, from as int) == find_from(s@, pat@, i as int),
        decreases s@.len() - i,
    {
        if matches_at(s, pat, i) {
            return Some(i);
        }
        proof {
            if i == s@.len() {
                assert(s@.subrange(i as int, i + pat@.len()) =~= pat@);
            }
        }
        i = i + 1;
    }
    None
}

/// A copy of a range of characters.
pub fn slice_chars(s: &Vec<char>, from: usize, to: usize) -> (r: Vec<char>)
    requires
        from <= to <= s@.len(),
    ensures
        r@ == s@.subrange(from as int, to as int),
{
    let mut r: Vec<char> = Vec::new();
    let mut i: usize = from;
    while i < to
        invariant
            from <= i <= to <= s@.len(),
            r@ =~= s@.subrange(from as int, i as int),
        decreases to - i,
    {
        r.push(s[i]);
        i = i + 1;
    }
    r
}

/// The characters without white space at either end.
pub fn trim(s: &Vec<char>) -> (r: Vec<char>)
    ensures
        r@ == trimmed_text(s@),
{
    let mut i: usize = 0;
    assert(s@.skip(0) =~= s@);
    while i < s.len() && is_whitespace(s[i])
        invariant
            i <= s@.len(),
            trim_front(s@) == trim_front(s@.skip(i as int)),
        decreases s@.len() - i,
    {
        assert(s@.skip(i as int).drop_first() =~= s@.skip(i + 1));
        i = i + 1;
    }
    let ghost front = s@.skip(i as int);
    assert(trim_front(s@) == front);
    let mut j: usize = s.len();
    assert(front.take(j - i) =~= front);
    while j > i && is_whitespace(s[j - 1])
        invariant
            i <= j <= s@.len(),
            front == s@.skip(i as int),
            trim_back(front) == trim_back(front.take(j - i)),
        decreases j,
    {
        assert(front.take(j - i).last() == s@[j - 1]);
        assert(front.take(j - i).drop_last() =~= front.take(j - i - 1));
        j = j - 1;
    }
    proof {
        if j > i {
            assert(front.take(j - i).last() == s@[j - 1]);
        }
        assert(front.take(j - i) =~= s@.subrange(i as int, j as int));
    }
    slice_chars(s, i, j)
}

/// Lists of characters as sequences.
pub open spec fn char_views(v: Seq<Vec<char>>) -> Seq<Seq<char>> {
    Seq::new(v.len(), |i: int| v[i]@)
}

/// The pieces of a text between separators.
pub fn split(s: &Vec<char>, sep: char) -> (out: Vec<Vec<char>>)
    ensures
        char_views(out@) == split_on(s@, sep),
        out@.len() > 0,
{
    let mut out: Vec<Vec<char>> = Vec::new();
    let mut piece: Vec<char> = Vec::new();
    let mut i: usize = 0;
    assert(s@.take(0) =~= Seq::empty());
    assert(piece@ =~= Seq::empty());
    assert(char_views(out@).push(piece@) =~= split_on(s@.take(0), sep));
    while i < s.len()
        invariant
            i <= s@.len(),
            char_views(out@).push(piece@) == split_on(s@.take(i as int), sep),
        decreases s@.len() - i,
    {
        let ghost before = split_on(s@.take(i as int), sep);
        let ghost done = char_views(out@);
        proof {
            assert(s@.take(i + 1).drop_last() =~= s@.take(i as int));
            assert(before.drop_last() =~= done);
        }
        if s[i] == sep {
            let ghost closed = piece@;
            out.push(piece);
            piece = Vec::new();
            assert(piece@ =~= Seq::empty());
            assert(char_views(out@) =~= done.push(closed));
        } else {
            piece.push(s[i]);
        }
        i = i + 1;
    }
    assert(s@.take(i as int) =~= s@);
    let ghost done = char_views(out@);
    let ghost closed = piece@;
    out.push(piece);
    assert(char_views(out@) =~= done.push(closed));
    out
}

/// What lower-casing makes of a text.
pub uninterp spec fn lowercased(s: Seq<char>) -> Seq<char>;

/// `str::to_lowercase`: the result is a function of the text alone, and an
/// ASCII text is lower-cased letter by letter.
#[verifier::external_body]
pub(crate) fn lowercase(s: &str) -> (r: String)
    ensures
        r@ == lowercased(s@),
        vstd::utf8::is_ascii_chars(s@) ==> r@ == s@.map_values(|c: char| ascii_lower(c)),
{
    s.to_lowercase()
}

// ---------------------------------------------------------------------- laws

/// `part` between two other texts.
pub open spec fn framed(before: Seq<char>, part: Seq<char>, after: Seq<char>) -> Seq<char> {
    before + part + after
}

/// Whether a text stands somewhere in another.
pub open spec fn holds_text(s: Seq<char>, part: Seq<char>) -> bool {
    exists|before: Seq<char>, after: Seq<char>| s == #[trigger] framed(before, part, after)
}

/// Digits count by their place.
pub proof fn law_digits_count_by_place(digits: Seq<char>, c: char)
    requires
        ascii_digit(c),
    ensures
        value(Seq::empty()) == 0,
        value(digits.push(c)) == 10 * value(digits) + (c as int - '0' as int),
{
    assert(digits.push(c).drop_last() =~= digits);
}

/// A numeral reads back as its number, and has no leading zero.
pub proof fn law_numerals_read_back(n: nat)
    ensures
        dec(n).len() > 0,
        all_digits(dec(n)),
        value(dec(n)) == n,
        n > 0 ==> dec(n)[0] != '0',
    decreases n,
{
    let last = digit((n % 10) as int);
    assert('0' <= last <= '9' && last as u32 - 48 == n % 10);
    if n < 10 {
        assert(dec(n) =~= Seq::empty().push(last));
        law_digits_count_by_place(Seq::empty(), last);
    } else {
        law_numerals_read_back(n / 10);
        law_digits_count_by_place(dec(n / 10), last);
    }
}

/// Padded digits are as many as asked for, and read back where the number has
/// no more.
pub proof fn law_padded_digits_read_back(n: nat, width: nat)
    ensures
        padded(n, width).len() == width,
        all_digits(padded(n, width)),
        n < crate::parse::ten_to(width) ==> value(padded(n, width)) == n,
    decreases width,
{
    if width > 0 {
        let last = digit((n % 10) as int);
        assert('0' <= last <= '9' && last as u32 - 48 == n % 10);
        law_padded_digits_read_back(n / 10, (width - 1) as nat);
        law_digits_count_by_place(padded(n / 10, (width - 1) as nat), last);
    }
}

/// A signed numeral is the numeral of the size, behind a minus sign iff the
/// number is negative.
pub proof fn law_signed_numerals(n: int)
    ensures
        n < 0 ==> signed_dec(n)[0] == '-' && value(signed_dec(n).drop_first()) == -n,
        n >= 0 ==> all_digits(signed_dec(n)) && value(signed_dec(n)) == n,
{
    if n < 0 {
        law_numerals_read_back((-n) as nat);
        assert(signed_dec(n).drop_first() =~= dec((-n) as nat));
    } else {
        law_numerals_read_back(n as nat);
    }
}

/// Joined texts hold their parts in order, with the separator between each two.
pub proof fn law_joined_parts(parts: Seq<Seq<char>>, part: Seq<char>, sep: Seq<char>)
    ensures
        joined(Seq::empty(), sep) == Seq::<char>::empty(),
        joined(seq![part], sep) == part,
        parts.len() > 0 ==> joined(parts.push(part), sep) == joined(parts, sep) + sep + part,
{
    assert(parts.push(part).drop_last() =~= parts);
}

/// The parts that a text is split into hold no separator, and joined by it they are
/// the text again.
pub proof fn law_split_parts_join_again(s: Seq<char>, sep: char)
    ensures
        split_on(s, sep).len() > 0,
        joined(split_on(s, sep), seq![sep]) == s,
        forall|i: int|
            #![trigger split_on(s, sep)[i]]
            0 <= i < split_on(s, sep).len() ==> !split_on(s, sep)[i].contains(sep),
    decreases s.len(),
{
    if s.len() > 0 {
        let rest = s.drop_last();
        law_split_parts_join_again(rest, sep);
        let (was, now) = (split_on(rest, sep), split_on(s, sep));
        if s.last() == sep {
            law_joined_parts(was, Seq::empty(), seq![sep]);
            assert(joined(now, seq![sep]) =~= s);
        } else {
            let (head, x) = (was.drop_last(), was.last());
            assert(was =~= head.push(x));
            assert(!was[was.len() - 1].contains(sep));
            if head.len() > 0 {
                law_joined_parts(head, x, seq![sep]);
                law_joined_parts(head, x.push(s.last()), seq![sep]);
            } else {
                assert(was =~= seq![x]);
                assert(now =~= seq![x.push(s.last())]);
                law_joined_parts(head, x, seq![sep]);
                law_joined_parts(head, x.push(s.last()), seq![sep]);
            }
            assert(now =~= head.push(x.push(s.last())));
            assert(joined(now, seq![sep]) =~= joined(was, seq![sep]).push(s.last()));
            assert(s =~= rest.push(s.last()));
            assert forall|i: int| #![trigger now[i]] 0 <= i < now.len() implies !now[i].contains(
                sep,
            ) by {
                if i < head.len() {
                    assert(now[i] == was[i]);
                } else if now[i].contains(sep) {
                    let k = choose|k: int| 0 <= k < now[i].len() && now[i][k] == sep;
                    assert(x[k] == sep);
                }
            }
        }
    } else {
        law_joined_parts(Seq::empty(), Seq::empty(), seq![sep]);
        assert(!Seq::<char>::empty().contains(sep));
    }
}

/// Trimming takes off blanks at both ends, and nothing else.
pub proof fn law_trimming_takes_only_blanks(s: Seq<char>) -> (from: int)
    ensures
        ({
            let t = trimmed_text(s);
            &&& 0 <= from && from + t.len() <= s.len()
            &&& s.subrange(from, from + t.len()) == t
            &&& t.len() > 0 ==> !whitespace(t[0]) && !whitespace(t.last())
            &&& forall|i: int|
                #![trigger s[i]]
                0 <= i < from || from + t.len() <= i < s.len() ==> whitespace(s[i])
        }),
{
    let from = lemma_trim_front(s);
    let rest = trim_front(s);
    lemma_trim_back(rest);
    let t = trimmed_text(s);
    assert(s.subrange(from, from + t.len()) =~= rest.take(t.len() as int));
    assert forall|i: int|
        #![trigger s[i]]
        from + t.len() <= i < s.len() implies whitespace(s[i]) by {
        assert(rest[i - from] == s[i]);
    }
    if t.len() > 0 {
        assert(t[0] == rest[0]);
    }
    from
}

proof fn lemma_trim_front(s: Seq<char>) -> (from: int)
    ensures
        0 <= from <= s.len(),
        trim_front(s) == s.skip(from),
        trim_front(s).len() > 0 ==> !whitespace(trim_front(s)[0]),
        forall|i: int| #![trigger s[i]] 0 <= i < from ==> whitespace(s[i]),
    decreases s.len(),
{
    if s.len() > 0 && whitespace(s[0]) {
        let rest = s.drop_first();
        let from = lemma_trim_front(rest);
        assert(rest.skip(from) =~= s.skip(from + 1));
        assert forall|i: int| #![trigger s[i]] 0 <= i < from + 1 implies whitespace(s[i]) by {
            if i > 0 {
                assert(rest[i - 1] == s[i]);
            }
        }
        from + 1
    } else {
        assert(s.skip(0) =~= s);
        0
    }
}

proof fn lemma_trim_back(s: Seq<char>)
    ensures
        trim_back(s).len() <= s.len(),
        trim_back(s) == s.take(trim_back(s).len() as int),
        trim_back(s).len() > 0 ==> !whitespace(trim_back(s).last()),
        forall|i: int| #![trigger s[i]] trim_back(s).len() <= i < s.len() ==> whitespace(s[i]),
    decreases s.len(),
{
    if s.len() > 0 && whitespace(s.last()) {
        let rest = s.drop_last();
        lemma_trim_back(rest);
        let n = trim_back(s).len() as int;
        assert(rest.take(n) =~= s.take(n));
        assert forall|i: int| #![trigger s[i]] n <= i < s.len() implies whitespace(s[i]) by {
            if i < rest.len() {
                assert(rest[i] == s[i]);
            }
        }
    } else {
        assert(s.take(s.len() as int) =~= s);
    }
}

/// A search finds the first place where the text stands.
pub proof fn law_searches_find_the_first(s: Seq<char>, pat: Seq<char>, from: int)
    requires
        0 <= from,
    ensures
        match find_from(s, pat, from) {
            Some(i) => {
                &&& from <= i
                &&& i + pat.len() <= s.len()
                &&& s.subrange(i, i + pat.len()) == pat
                &&& forall|k: int| from <= k < i ==> !#[trigger] stands_at(s, pat, k)
            },
            None => forall|k: int| from <= k ==> !#[trigger] stands_at(s, pat, k),
        },
    decreases s.len() - from + 1,
{
    if from + pat.len() <= s.len() && !stands_at(s, pat, from) {
        law_searches_find_the_first(s, pat, from + 1);
    }
}

} // verus!
