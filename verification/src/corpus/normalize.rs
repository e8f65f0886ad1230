//! Query-side text normalization: lowercase, digits and ordinals expanded to
//! words, punctuation stripped. The index stores normalized tokens; search
//! normalizes the query, so that "25" finds "twenty five".
//!
//! Numbers are spelled as English prose says them, hyphens and commas becoming
//! token separators, with "and" before a sub-hundred remainder. Numbers beyond
//! `u128` are spelled digit by digit, and so are never refused; digits outside
//! ASCII are stripped.
use crate::parse::lemma_value_grows;
use crate::text::{
    all_digits, ascii_digit, chars_of, is_whitespace, join, joined, lowercase, lowercased,
    push_arg, same, string_of, texts, value, whitespace,
};
use vstd::prelude::*;
use vstd::string::StringExecFns;

verus! {

// -------------------------------------------------------------------- numbers

/// The name of a number below twenty.
pub open spec fn unit(n: int) -> Seq<char> {
    if n == 0 {
        "zero"@
    } else if n == 1 {
        "one"@
    } else if n == 2 {
        "two"@
    } else if n == 3 {
        "three"@
    } else if n == 4 {
        "four"@
    } else if n == 5 {
        "five"@
    } else if n == 6 {
        "six"@
    } else if n == 7 {
        "seven"@
    } else if n == 8 {
        "eight"@
    } else if n == 9 {
        "nine"@
    } else if n == 10 {
        "ten"@
    } else if n == 11 {
        "eleven"@
    } else if n == 12 {
        "twelve"@
    } else if n == 13 {
        "thirteen"@
    } else if n == 14 {
        "fourteen"@
    } else if n == 15 {
        "fifteen"@
    } else if n == 16 {
        "sixteen"@
    } else if n == 17 {
        "seventeen"@
    } else if n == 18 {
        "eighteen"@
    } else {
        "nineteen"@
    }
}

/// The name of a multiple of ten, from twenty on.
pub open spec fn ten(n: int) -> Seq<char> {
    if n == 2 {
        "twenty"@
    } else if n == 3 {
        "thirty"@
    } else if n == 4 {
        "forty"@
    } else if n == 5 {
        "fifty"@
    } else if n == 6 {
        "sixty"@
    } else if n == 7 {
        "seventy"@
    } else if n == 8 {
        "eighty"@
    } else {
        "ninety"@
    }
}

/// The short-scale name of 1000^(i + 1), up to the largest that fits `u128`.
pub open spec fn scale(i: int) -> Seq<char> {
    if i == 0 {
        "thousand"@
    } else if i == 1 {
        "million"@
    } else if i == 2 {
        "billion"@
    } else if i == 3 {
        "trillion"@
    } else if i == 4 {
        "quadrillion"@
    } else if i == 5 {
        "quintillion"@
    } else if i == 6 {
        "sextillion"@
    } else if i == 7 {
        "septillion"@
    } else if i == 8 {
        "octillion"@
    } else if i == 9 {
        "nonillion"@
    } else if i == 10 {
        "decillion"@
    } else {
        "undecillion"@
    }
}

/// The name of a number below twenty.
fn unit_word(n: usize) -> (w: &'static str)
    ensures
        w@ == unit(n as int),
{
    if n == 0 {
        "zero"
    } else if n == 1 {
        "one"
    } else if n == 2 {
        "two"
    } else if n == 3 {
        "three"
    } else if n == 4 {
        "four"
    } else if n == 5 {
        "five"
    } else if n == 6 {
        "six"
    } else if n == 7 {
        "seven"
    } else if n == 8 {
        "eight"
    } else if n == 9 {
        "nine"
    } else if n == 10 {
        "ten"
    } else if n == 11 {
        "eleven"
    } else if n == 12 {
        "twelve"
    } else if n == 13 {
        "thirteen"
    } else if n == 14 {
        "fourteen"
    } else if n == 15 {
        "fifteen"
    } else if n == 16 {
        "sixteen"
    } else if n == 17 {
        "seventeen"
    } else if n == 18 {
        "eighteen"
    } else {
        "nineteen"
    }
}

/// The name of a multiple of ten.
fn ten_word(n: usize) -> (w: &'static str)
    ensures
        w@ == ten(n as int),
{
    if n == 2 {
        "twenty"
    } else if n == 3 {
        "thirty"
    } else if n == 4 {
        "forty"
    } else if n == 5 {
        "fifty"
    } else if n == 6 {
        "sixty"
    } else if n == 7 {
        "seventy"
    } else if n == 8 {
        "eighty"
    } else {
        "ninety"
    }
}

/// The short-scale name of 1000^(i + 1).
fn scale_word(i: usize) -> (w: &'static str)
    ensures
        w@ == scale(i as int),
{
    if i == 0 {
        "thousand"
    } else if i == 1 {
        "million"
    } else if i == 2 {
        "billion"
    } else if i == 3 {
        "trillion"
    } else if i == 4 {
        "quadrillion"
    } else if i == 5 {
        "quintillion"
    } else if i == 6 {
        "sextillion"
    } else if i == 7 {
        "septillion"
    } else if i == 8 {
        "octillion"
    } else if i == 9 {
        "nonillion"
    } else if i == 10 {
        "decillion"
    } else {
        "undecillion"
    }
}

/// The words of a number below a hundred.
pub open spec fn sub_hundred(n: int) -> Seq<Seq<char>> {
    if n < 20 {
        seq![unit(n)]
    } else if n % 10 == 0 {
        seq![ten(n / 10)]
    } else {
        seq![ten(n / 10), unit(n % 10)]
    }
}

/// The words of a number below a thousand: a remainder below a hundred follows
/// "and".
pub open spec fn group(n: int) -> Seq<Seq<char>> {
    if n >= 100 {
        let hundreds = seq![unit(n / 100), "hundred"@];
        if n % 100 == 0 {
            hundreds
        } else {
            hundreds.push("and"@) + sub_hundred(n % 100)
        }
    } else {
        sub_hundred(n)
    }
}

/// The words of `n * 1000^i`, none for zero: the words of the thousands above,
/// then the last group with its scale; a last remainder below a hundred follows
/// "and" ("one million and five").
pub open spec fn scaled(n: nat, i: nat) -> Seq<Seq<char>>
    decreases n,
{
    if n == 0 {
        Seq::empty()
    } else {
        let above = scaled(n / 1000, i + 1);
        let g = (n % 1000) as int;
        if g == 0 {
            above
        } else {
            let joined_above = if i == 0 && above.len() > 0 && g < 100 {
                above.push("and"@)
            } else {
                above
            };
            if i > 0 {
                (joined_above + group(g)).push(scale(i - 1))
            } else {
                joined_above + group(g)
            }
        }
    }
}

/// The words of a number.
pub open spec fn cardinal(n: nat) -> Seq<Seq<char>> {
    if n == 0 {
        seq!["zero"@]
    } else {
        scaled(n, 0)
    }
}

/// The ordinal form of a cardinal's last word.
pub open spec fn ordinal_word(w: Seq<char>) -> Seq<char> {
    if w == "one"@ {
        "first"@
    } else if w == "two"@ {
        "second"@
    } else if w == "three"@ {
        "third"@
    } else if w == "five"@ {
        "fifth"@
    } else if w == "eight"@ {
        "eighth"@
    } else if w == "nine"@ {
        "ninth"@
    } else if w == "twelve"@ {
        "twelfth"@
    } else if w.len() > 0 && w.last() == 'y' {
        w.drop_last() + "ieth"@
    } else {
        w + "th"@
    }
}

/// The words of an ordinal: the cardinal's, the last one transformed.
pub open spec fn ordinal(n: nat) -> Seq<Seq<char>> {
    cardinal(n).drop_last().push(ordinal_word(cardinal(n).last()))
}

/// Digits spelled one by one.
pub open spec fn spelled(digits: Seq<char>) -> Seq<Seq<char>> {
    digits.map_values(|c: char| unit(c as u32 - 48))
}

/// The words of a run of digits: the number's words where it fits `u128`,
/// otherwise digit by digit.
pub open spec fn number_words(digits: Seq<char>, as_ordinal: bool) -> Seq<Seq<char>> {
    if digits.len() == 0 || value(digits) > u128::MAX {
        spelled(digits)
    } else if as_ordinal {
        ordinal(value(digits))
    } else {
        cardinal(value(digits))
    }
}

/// Appends the words of a number below a hundred.
pub fn push_sub_hundred(n: usize, out: &mut Vec<String>)
    requires
        n < 100,
    ensures
        texts(final(out)@) == texts(old(out)@) + sub_hundred(n as int),
{
    let ghost before = texts(out@);
    if n < 20 {
        push_arg(out, unit_word(n));
        assert(texts(out@) =~= before + sub_hundred(n as int));
    } else {
        push_arg(out, ten_word(n / 10));
        if n % 10 != 0 {
            push_arg(out, unit_word(n % 10));
        }
        assert(texts(out@) =~= before + sub_hundred(n as int));
    }
}

/// Appends the words of a number below a thousand.
pub fn push_group(n: usize, out: &mut Vec<String>)
    requires
        n < 1000,
    ensures
        texts(final(out)@) == texts(old(out)@) + group(n as int),
{
    let ghost before = texts(out@);
    if n >= 100 {
        push_arg(out, unit_word(n / 100));
        push_arg(out, "hundred");
        if n % 100 != 0 {
            push_arg(out, "and");
            push_sub_hundred(n % 100, out);
        }
        assert(texts(out@) =~= before + group(n as int));
    } else {
        push_sub_hundred(n, out);
    }
}

/// The words of a number.
pub fn cardinal_tokens(n: u128) -> (out: Vec<String>)
    ensures
        texts(out@) == cardinal(n as nat),
{
    let mut out: Vec<String> = Vec::new();
    assert(texts(out@) =~= Seq::empty());
    if n == 0 {
        push_arg(&mut out, "zero");
        return out;
    }
    // `n` without its last `i` groups of three digits, for each `i`.
    let mut quotients: Vec<u128> = Vec::new();
    let mut m: u128 = n;
    while m > 0
        invariant
            n > 0,
            quotients@.len() == 0 ==> m == n,
            quotients@.len() > 0 ==> quotients@[0] == n && quotients@.last() / 1000 == m,
            forall|j: int|
                #![trigger quotients@[j]]
                0 <= j < quotients@.len() ==> quotients@[j] > 0,
            forall|j: int, l: int|
                #![trigger quotients@[j], quotients@[l]]
                0 <= j && l == j + 1 && l < quotients@.len() ==> quotients@[l] == quotients@[j]
                    / 1000,
        decreases m,
    {
        quotients.push(m);
        m = m / 1000;
    }
    let mut i: usize = quotients.len();
    proof {
        assert(scaled(0, i as nat) =~= Seq::empty());
    }
    while i > 0
        invariant
            i <= quotients@.len(),
            quotients@.len() > 0,
            quotients@[0] == n,
            quotients@.last() / 1000 == 0,
            forall|j: int|
                #![trigger quotients@[j]]
                0 <= j < quotients@.len() ==> quotients@[j] > 0,
            forall|j: int, l: int|
                #![trigger quotients@[j], quotients@[l]]
                0 <= j && l == j + 1 && l < quotients@.len() ==> quotients@[l] == quotients@[j]
                    / 1000,
            texts(out@) == scaled(
                if i < quotients@.len() {
                    quotients@[i as int] as nat
                } else {
                    0
                },
                i as nat,
            ),
        decreases i,
    {
        let ghost above = texts(out@);
        i = i - 1;
        let q: u128 = quotients[i];
        let g: usize = (q % 1000) as usize;
        proof {
            if i + 1 < quotients@.len() {
                assert(quotients@[i + 1] == quotients@[i as int] / 1000);
            }
            assert(above == scaled((q / 1000) as nat, (i + 1) as nat));
        }
        if g != 0 {
            if i == 0 && out.len() > 0 && g < 100 {
                push_arg(&mut out, "and");
            }
            push_group(g, &mut out);
            if i > 0 {
                push_arg(&mut out, scale_word(i - 1));
            }
        }
    }
    out
}

/// The words of an ordinal.
pub fn ordinal_tokens(n: u128) -> (out: Vec<String>)
    ensures
        texts(out@) == ordinal(n as nat),
{
    let mut tokens: Vec<String> = cardinal_tokens(n);
    proof {
        lemma_cardinal_nonempty(n as nat);
        assert(texts(tokens@).len() > 0);
    }
    let ghost before = texts(tokens@);
    let last: String = match tokens.pop() {
        Some(w) => w,
        None => String::new(),
    };
    assert(last@ == before.last());
    assert(texts(tokens@) =~= before.drop_last());
    let word: String = ordinal_form(last.as_str());
    push_arg(&mut tokens, word.as_str());
    tokens
}

proof fn lemma_cardinal_nonempty(n: nat)
    ensures
        cardinal(n).len() > 0,
{
    if n > 0 {
        lemma_scaled_nonempty(n, 0);
    }
}

proof fn lemma_scaled_nonempty(n: nat, i: nat)
    requires
        n > 0,
    ensures
        scaled(n, i).len() > 0,
    decreases n,
{
    if n % 1000 == 0 {
        lemma_scaled_nonempty(n / 1000, i + 1);
    }
}

// ------------------------------------------------------------- reading numbers

/// What a word says in a number.
pub enum Meaning {
    /// So many more.
    Count(int),
    /// A hundred times what was counted since the last scale.
    Hundred,
    /// Nothing.
    And,
    /// A thousand to this power times what was counted since the last scale.
    Scale(nat),
    /// No word of a number.
    Other,
}

/// What a word says in a number.
pub open spec fn meaning(w: Seq<char>) -> Meaning {
    if w == "zero"@ {
        Meaning::Count(0)
    } else if w == "one"@ {
        Meaning::Count(1)
    } else if w == "two"@ {
        Meaning::Count(2)
    } else if w == "three"@ {
        Meaning::Count(3)
    } else if w == "four"@ {
        Meaning::Count(4)
    } else if w == "five"@ {
        Meaning::Count(5)
    } else if w == "six"@ {
        Meaning::Count(6)
    } else if w == "seven"@ {
        Meaning::Count(7)
    } else if w == "eight"@ {
        Meaning::Count(8)
    } else if w == "nine"@ {
        Meaning::Count(9)
    } else if w == "ten"@ {
        Meaning::Count(10)
    } else if w == "eleven"@ {
        Meaning::Count(11)
    } else if w == "twelve"@ {
        Meaning::Count(12)
    } else if w == "thirteen"@ {
        Meaning::Count(13)
    } else if w == "fourteen"@ {
        Meaning::Count(14)
    } else if w == "fifteen"@ {
        Meaning::Count(15)
    } else if w == "sixteen"@ {
        Meaning::Count(16)
    } else if w == "seventeen"@ {
        Meaning::Count(17)
    } else if w == "eighteen"@ {
        Meaning::Count(18)
    } else if w == "nineteen"@ {
        Meaning::Count(19)
    } else if w == "twenty"@ {
        Meaning::Count(20)
    } else if w == "thirty"@ {
        Meaning::Count(30)
    } else if w == "forty"@ {
        Meaning::Count(40)
    } else if w == "fifty"@ {
        Meaning::Count(50)
    } else if w == "sixty"@ {
        Meaning::Count(60)
    } else if w == "seventy"@ {
        Meaning::Count(70)
    } else if w == "eighty"@ {
        Meaning::Count(80)
    } else if w == "ninety"@ {
        Meaning::Count(90)
    } else if w == "hundred"@ {
        Meaning::Hundred
    } else if w == "and"@ {
        Meaning::And
    } else if w == "thousand"@ {
        Meaning::Scale(1)
    } else if w == "million"@ {
        Meaning::Scale(2)
    } else if w == "billion"@ {
        Meaning::Scale(3)
    } else if w == "trillion"@ {
        Meaning::Scale(4)
    } else if w == "quadrillion"@ {
        Meaning::Scale(5)
    } else if w == "quintillion"@ {
        Meaning::Scale(6)
    } else if w == "sextillion"@ {
        Meaning::Scale(7)
    } else if w == "septillion"@ {
        Meaning::Scale(8)
    } else if w == "octillion"@ {
        Meaning::Scale(9)
    } else if w == "nonillion"@ {
        Meaning::Scale(10)
    } else if w == "decillion"@ {
        Meaning::Scale(11)
    } else if w == "undecillion"@ {
        Meaning::Scale(12)
    } else {
        Meaning::Other
    }
}

/// A power of a thousand.
pub open spec fn thousands(i: nat) -> nat
    decreases i,
{
    if i == 0 {
        1
    } else {
        1000 * thousands((i - 1) as nat)
    }
}

/// What is understood after one more word: what stands under the scales so far,
/// and what was counted since.
pub open spec fn understood(so_far: (int, int), w: Seq<char>) -> (int, int) {
    match meaning(w) {
        Meaning::Count(k) => (so_far.0, so_far.1 + k),
        Meaning::Hundred => (so_far.0, so_far.1 * 100),
        Meaning::Scale(i) => (so_far.0 + so_far.1 * thousands(i), 0),
        _ => so_far,
    }
}

/// What is understood of words.
pub open spec fn heard(words: Seq<Seq<char>>) -> (int, int)
    decreases words.len(),
{
    if words.len() == 0 {
        (0, 0)
    } else {
        understood(heard(words.drop_last()), words.last())
    }
}

proof fn lemma_meanings(n: int)
    ensures
        0 <= n < 20 ==> meaning(unit(n)) == Meaning::Count(n),
        2 <= n < 10 ==> meaning(ten(n)) == Meaning::Count(10 * n),
        0 <= n < 12 ==> meaning(scale(n)) == Meaning::Scale((n + 1) as nat),
        meaning("hundred"@) == Meaning::Hundred,
        meaning("and"@) == Meaning::And,
{
    reveal_strlit("zero");
    reveal_strlit("one");
    reveal_strlit("two");
    reveal_strlit("three");
    reveal_strlit("four");
    reveal_strlit("five");
    reveal_strlit("six");
    reveal_strlit("seven");
    reveal_strlit("eight");
    reveal_strlit("nine");
    reveal_strlit("ten");
    reveal_strlit("eleven");
    reveal_strlit("twelve");
    reveal_strlit("thirteen");
    reveal_strlit("fourteen");
    reveal_strlit("fifteen");
    reveal_strlit("sixteen");
    reveal_strlit("seventeen");
    reveal_strlit("eighteen");
    reveal_strlit("nineteen");
    reveal_strlit("twenty");
    reveal_strlit("thirty");
    reveal_strlit("forty");
    reveal_strlit("fifty");
    reveal_strlit("sixty");
    reveal_strlit("seventy");
    reveal_strlit("eighty");
    reveal_strlit("ninety");
    reveal_strlit("hundred");
    reveal_strlit("and");
    reveal_strlit("thousand");
    reveal_strlit("million");
    reveal_strlit("billion");
    reveal_strlit("trillion");
    reveal_strlit("quadrillion");
    reveal_strlit("quintillion");
    reveal_strlit("sextillion");
    reveal_strlit("septillion");
    reveal_strlit("octillion");
    reveal_strlit("nonillion");
    reveal_strlit("decillion");
    reveal_strlit("undecillion");
    assert("zero"@.len() == 4 && "zero"@[0] == 'z' && "zero"@[2] == 'r' && "zero"@[3] == 'o');
    assert("one"@.len() == 3 && "one"@[0] == 'o' && "one"@[2] == 'e');
    assert("two"@.len() == 3 && "two"@[0] == 't' && "two"@[2] == 'o');
    assert("three"@.len() == 5 && "three"@[0] == 't' && "three"@[2] == 'r' && "three"@[3] == 'e');
    assert("four"@.len() == 4 && "four"@[0] == 'f' && "four"@[2] == 'u' && "four"@[3] == 'r');
    assert("five"@.len() == 4 && "five"@[0] == 'f' && "five"@[2] == 'v' && "five"@[3] == 'e');
    assert("six"@.len() == 3 && "six"@[0] == 's' && "six"@[2] == 'x');
    assert("seven"@.len() == 5 && "seven"@[0] == 's' && "seven"@[2] == 'v' && "seven"@[3] == 'e');
    assert("eight"@.len() == 5 && "eight"@[0] == 'e' && "eight"@[2] == 'g' && "eight"@[3] == 'h');
    assert("nine"@.len() == 4 && "nine"@[0] == 'n' && "nine"@[2] == 'n' && "nine"@[3] == 'e');
    assert("ten"@.len() == 3 && "ten"@[0] == 't' && "ten"@[2] == 'n');
    assert("eleven"@.len() == 6 && "eleven"@[0] == 'e' && "eleven"@[2] == 'e' && "eleven"@[3] == 'v');
    assert("twelve"@.len() == 6 && "twelve"@[0] == 't' && "twelve"@[2] == 'e' && "twelve"@[3] == 'l');
    assert("thirteen"@.len() == 8 && "thirteen"@[0] == 't' && "thirteen"@[2] == 'i' && "thirteen"@[3] == 'r');
    assert("fourteen"@.len() == 8 && "fourteen"@[0] == 'f' && "fourteen"@[2] == 'u' && "fourteen"@[3] == 'r');
    assert("fifteen"@.len() == 7 && "fifteen"@[0] == 'f' && "fifteen"@[2] == 'f' && "fifteen"@[3] == 't');
    assert("sixteen"@.len() == 7 && "sixteen"@[0] == 's' && "sixteen"@[2] == 'x' && "sixteen"@[3] == 't');
    assert("seventeen"@.len() == 9 && "seventeen"@[0] == 's' && "seventeen"@[2] == 'v' && "seventeen"@[3] == 'e');
    assert("eighteen"@.len() == 8 && "eighteen"@[0] == 'e' && "eighteen"@[2] == 'g' && "eighteen"@[3] == 'h');
    assert("nineteen"@.len() == 8 && "nineteen"@[0] == 'n' && "nineteen"@[2] == 'n' && "nineteen"@[3] == 'e');
    assert("twenty"@.len() == 6 && "twenty"@[0] == 't' && "twenty"@[2] == 'e' && "twenty"@[3] == 'n');
    assert("thirty"@.len() == 6 && "thirty"@[0] == 't' && "thirty"@[2] == 'i' && "thirty"@[3] == 'r');
    assert("forty"@.len() == 5 && "forty"@[0] == 'f' && "forty"@[2] == 'r' && "forty"@[3] == 't');
    assert("fifty"@.len() == 5 && "fifty"@[0] == 'f' && "fifty"@[2] == 'f' && "fifty"@[3] == 't');
    assert("sixty"@.len() == 5 && "sixty"@[0] == 's' && "sixty"@[2] == 'x' && "sixty"@[3] == 't');
    assert("seventy"@.len() == 7 && "seventy"@[0] == 's' && "seventy"@[2] == 'v' && "seventy"@[3] == 'e');
    assert("eighty"@.len() == 6 && "eighty"@[0] == 'e' && "eighty"@[2] == 'g' && "eighty"@[3] == 'h');
    assert("ninety"@.len() == 6 && "ninety"@[0] == 'n' && "ninety"@[2] == 'n' && "ninety"@[3] == 'e');
    assert("hundred"@.len() == 7 && "hundred"@[0] == 'h' && "hundred"@[2] == 'n' && "hundred"@[3] == 'd');
    assert("and"@.len() == 3 && "and"@[0] == 'a' && "and"@[2] == 'd');
    assert("thousand"@.len() == 8 && "thousand"@[0] == 't' && "thousand"@[2] == 'o' && "thousand"@[3] == 'u');
    assert("million"@.len() == 7 && "million"@[0] == 'm' && "million"@[2] == 'l' && "million"@[3] == 'l');
    assert("billion"@.len() == 7 && "billion"@[0] == 'b' && "billion"@[2] == 'l' && "billion"@[3] == 'l');
    assert("trillion"@.len() == 8 && "trillion"@[0] == 't' && "trillion"@[2] == 'i' && "trillion"@[3] == 'l');
    assert("quadrillion"@.len() == 11 && "quadrillion"@[0] == 'q' && "quadrillion"@[2] == 'a' && "quadrillion"@[3] == 'd');
    assert("quintillion"@.len() == 11 && "quintillion"@[0] == 'q' && "quintillion"@[2] == 'i' && "quintillion"@[3] == 'n');
    assert("sextillion"@.len() == 10 && "sextillion"@[0] == 's' && "sextillion"@[2] == 'x' && "sextillion"@[3] == 't');
    assert("septillion"@.len() == 10 && "septillion"@[0] == 's' && "septillion"@[2] == 'p' && "septillion"@[3] == 't');
    assert("octillion"@.len() == 9 && "octillion"@[0] == 'o' && "octillion"@[2] == 't' && "octillion"@[3] == 'i');
    assert("nonillion"@.len() == 9 && "nonillion"@[0] == 'n' && "nonillion"@[2] == 'n' && "nonillion"@[3] == 'i');
    assert("decillion"@.len() == 9 && "decillion"@[0] == 'd' && "decillion"@[2] == 'c' && "decillion"@[3] == 'i');
    assert("undecillion"@.len() == 11 && "undecillion"@[0] == 'u' && "undecillion"@[2] == 'd' && "undecillion"@[3] == 'e');
}

proof fn lemma_heard_push(words: Seq<Seq<char>>, w: Seq<char>)
    ensures
        heard(words.push(w)) == understood(heard(words), w),
{
    assert(words.push(w).drop_last() =~= words);
}

proof fn lemma_sub_hundred_heard(words: Seq<Seq<char>>, n: int)
    requires
        0 <= n < 100,
    ensures
        heard(words + sub_hundred(n)) == (heard(words).0, heard(words).1 + n),
{
    lemma_meanings(n);
    lemma_meanings(n / 10);
    lemma_meanings(n % 10);
    if n < 20 {
        assert(words + sub_hundred(n) =~= words.push(unit(n)));
        lemma_heard_push(words, unit(n));
    } else {
        lemma_heard_push(words, ten(n / 10));
        if n % 10 == 0 {
            assert(words + sub_hundred(n) =~= words.push(ten(n / 10)));
        } else {
            lemma_heard_push(words.push(ten(n / 10)), unit(n % 10));
            assert(words + sub_hundred(n) =~= words.push(ten(n / 10)).push(unit(n % 10)));
        }
    }
}

proof fn lemma_group_heard(words: Seq<Seq<char>>, n: int)
    requires
        0 <= n < 1000,
        heard(words).1 == 0,
    ensures
        heard(words + group(n)) == (heard(words).0, n),
{
    if n >= 100 {
        lemma_meanings(n / 100);
        let said = words.push(unit(n / 100)).push("hundred"@);
        lemma_heard_push(words, unit(n / 100));
        lemma_heard_push(words.push(unit(n / 100)), "hundred"@);
        if n % 100 == 0 {
            assert(words + group(n) =~= said);
        } else {
            lemma_heard_push(said, "and"@);
            lemma_sub_hundred_heard(said.push("and"@), n % 100);
            assert(words + group(n) =~= said.push("and"@) + sub_hundred(n % 100));
        }
    } else {
        lemma_sub_hundred_heard(words, n);
    }
}

proof fn lemma_scaled_heard(n: nat, i: nat)
    requires
        n * thousands(i) < thousands(13),
    ensures
        i > 0 ==> heard(scaled(n, i)) == ((n * thousands(i)) as int, 0int),
        i == 0 ==> heard(scaled(n, i)) == (1000 * (n as int / 1000), n as int % 1000),
    decreases n,
{
    if n > 0 {
        lemma_scale_in_range(n, i);
        let (q, g) = (n / 1000, (n % 1000) as int);
        let (one, next) = (thousands(i) as int, thousands(i + 1) as int);
        assert(q * next == n * one - g * one) by (nonlinear_arith)
            requires
                n == 1000 * q + g,
                next == 1000 * one,
        ;
        assert(g * one >= 0) by (nonlinear_arith)
            requires
                g >= 0,
                one >= 0,
        ;
        lemma_scaled_heard(q, i + 1);
        let above = scaled(q, i + 1);
        if g == 0 {
            assert(g * one == 0) by (nonlinear_arith)
                requires
                    g == 0,
            ;
        } else {
            lemma_meanings(i - 1);
            let joined_above = if i == 0 && above.len() > 0 && g < 100 {
                above.push("and"@)
            } else {
                above
            };
            lemma_heard_push(above, "and"@);
            lemma_group_heard(joined_above, g);
            if i > 0 {
                lemma_heard_push(joined_above + group(g), scale(i - 1));
            }
        }
        if i == 0 {
            assert(thousands(0) == 1 && thousands(1) == 1000) by {
                reveal_with_fuel(thousands, 2);
            }
            assert(q * next == 1000 * q) by (nonlinear_arith)
                requires
                    next == 1000,
            ;
        }
    } else {
        assert(0 * thousands(i) == 0);
        assert(scaled(0, i) =~= Seq::empty());
    }
}

proof fn lemma_scale_in_range(n: nat, i: nat)
    requires
        n > 0,
        n * thousands(i) < thousands(13),
    ensures
        i < 13,
{
    if i >= 13 {
        lemma_thousands_grow(13, i);
        assert(n * thousands(i) >= thousands(i)) by (nonlinear_arith)
            requires
                n >= 1,
        ;
    }
}

proof fn lemma_thousands_grow(a: nat, b: nat)
    requires
        a <= b,
    ensures
        thousands(a) <= thousands(b),
    decreases b,
{
    if a < b {
        lemma_thousands_grow(a, (b - 1) as nat);
    }
}

/// A number's words say the number.
pub proof fn law_spellings_read_back(n: nat)
    requires
        n <= u128::MAX,
    ensures
        cardinal(n).len() > 0,
        heard(cardinal(n)).0 + heard(cardinal(n)).1 == n,
{
    lemma_cardinal_nonempty(n);
    if n == 0 {
        lemma_sub_hundred_heard(Seq::empty(), 0);
        assert(Seq::<Seq<char>>::empty() + sub_hundred(0) =~= cardinal(0));
    } else {
        assert(thousands(0) == 1 && n * thousands(0) == n);
        assert(thousands(13) == 1_000_000_000_000_000_000_000_000_000_000_000_000_000) by {
            reveal_with_fuel(thousands, 14);
        }
        lemma_scaled_heard(n, 0);
    }
}

/// No two numbers share a spelling.
pub proof fn law_spellings_are_distinct(a: nat, b: nat)
    requires
        a <= u128::MAX,
        b <= u128::MAX,
        a != b,
    ensures
        cardinal(a) != cardinal(b),
        cardinal(a).len() > 0 && cardinal(b).len() > 0,
{
    law_spellings_read_back(a);
    law_spellings_read_back(b);
}

fn ordinal_form(w: &str) -> (s: String)
    ensures
        s@ == ordinal_word(w@),
{
    if same(w, "one") {
        "first".to_owned()
    } else if same(w, "two") {
        "second".to_owned()
    } else if same(w, "three") {
        "third".to_owned()
    } else if same(w, "five") {
        "fifth".to_owned()
    } else if same(w, "eight") {
        "eighth".to_owned()
    } else if same(w, "nine") {
        "ninth".to_owned()
    } else if same(w, "twelve") {
        "twelfth".to_owned()
    } else {
        let chars: Vec<char> = chars_of(w);
        let n: usize = chars.len();
        if n > 0 && chars[n - 1] == 'y' {
            let mut s: String = string_of(chars.as_slice(), 0, n - 1);
            assert(s@ =~= w@.drop_last());
            s.append("ieth");
            s
        } else {
            let mut s: String = w.to_owned();
            s.append("th");
            s
        }
    }
}

fn parse_digits(digits: &Vec<char>) -> (r: Option<u128>)
    requires
        all_digits(digits@),
    ensures
        r is Some == (digits@.len() > 0 && value(digits@) <= u128::MAX),
        r is Some ==> r->0 == value(digits@),
{
    let mut n: u128 = 0;
    let mut i: usize = 0;
    if digits.len() == 0 {
        return None;
    }
    while i < digits.len()
        invariant
            i <= digits@.len(),
            all_digits(digits@),
            n == value(digits@.take(i as int)),
        decreases digits@.len() - i,
    {
        let d: u128 = (digits[i] as u32 - 48) as u128;
        proof {
            assert(digits@.take(i + 1).drop_last() =~= digits@.take(i as int));
            lemma_value_grows(digits@, i + 1);
        }
        match n.checked_mul(10) {
            None => {
                return None;
            },
            Some(m) => match m.checked_add(d) {
                None => {
                    return None;
                },
                Some(v) => {
                    n = v;
                },
            },
        }
        i = i + 1;
    }
    assert(digits@.take(i as int) =~= digits@);
    Some(n)
}

/// The words of a run of digits.
pub fn expand_number(digits: &Vec<char>, as_ordinal: bool) -> (out: Vec<String>)
    requires
        all_digits(digits@),
    ensures
        texts(out@) == number_words(digits@, as_ordinal),
{
    match parse_digits(digits) {
        Some(n) => if as_ordinal {
            ordinal_tokens(n)
        } else {
            cardinal_tokens(n)
        },
        None => {
            let mut out: Vec<String> = Vec::new();
            let mut i: usize = 0;
            while i < digits.len()
                invariant
                    i <= digits@.len(),
                    all_digits(digits@),
                    texts(out@) =~= spelled(digits@).take(i as int),
                decreases digits@.len() - i,
            {
                assert(ascii_digit(digits@[i as int]));
                push_arg(&mut out, unit_word((digits[i] as u32 - 48) as usize));
                i = i + 1;
            }
            assert(spelled(digits@).take(i as int) =~= spelled(digits@));
            out
        },
    }
}

// --------------------------------------------------------------------- tokens

/// Characters kept inside tokens.
pub open spec fn kept(c: char) -> bool {
    'a' <= c <= 'z' || '0' <= c <= '9' || c == '\''
}

/// Whether `c` is kept inside tokens.
pub fn keep(c: char) -> (r: bool)
    ensures
        r == kept(c),
{
    ('a' <= c && c <= 'z') || ('0' <= c && c <= '9') || c == '\''
}

/// The characters a field is made of: for `words` all but white space,
/// otherwise the kept ones.
pub open spec fn field_char(c: char, words: bool) -> bool {
    if words {
        !whitespace(c)
    } else {
        kept(c)
    }
}

/// The maximal runs of field characters, in order.
pub open spec fn fields(s: Seq<char>, words: bool) -> Seq<Seq<char>>
    decreases s.len(),
{
    let n = s.len() as int;
    if n == 0 {
        Seq::empty()
    } else {
        let before = fields(s.drop_last(), words);
        if !field_char(s[n - 1], words) {
            before
        } else if n > 1 && field_char(s[n - 2], words) {
            before.drop_last().push(before.last().push(s[n - 1]))
        } else {
            before.push(seq![s[n - 1]])
        }
    }
}

/// The kept characters of a text.
pub open spec fn kept_only(s: Seq<char>) -> Seq<char>
    decreases s.len(),
{
    if s.len() == 0 {
        Seq::empty()
    } else if kept(s.last()) {
        kept_only(s.drop_last()).push(s.last())
    } else {
        kept_only(s.drop_last())
    }
}

/// The digits of an ordinal such as `25th`: digits, then one of the suffixes.
pub open spec fn ordinal_digits(s: Seq<char>) -> Option<Seq<char>> {
    let n = s.len() as int;
    if n < 3 {
        None
    } else {
        let suffix = s.skip(n - 2);
        let digits = s.take(n - 2);
        if (suffix == "st"@ || suffix == "nd"@ || suffix == "rd"@ || suffix == "th"@)
            && all_digits(digits) {
            Some(digits)
        } else {
            None
        }
    }
}

/// `out` followed by a digit run's words, set off by spaces.
pub open spec fn flushed(out: Seq<char>, run: Seq<char>) -> Seq<char> {
    if run.len() == 0 {
        out
    } else {
        out.push(' ') + joined(number_words(run, false), " "@) + " "@
    }
}

/// A text read up to its end: what is written so far, and the digit run that
/// is still open.
pub open spec fn scanned(s: Seq<char>) -> (Seq<char>, Seq<char>)
    decreases s.len(),
{
    if s.len() == 0 {
        (Seq::empty(), Seq::empty())
    } else {
        let (out, run) = scanned(s.drop_last());
        if ascii_digit(s.last()) {
            (out, run.push(s.last()))
        } else {
            (flushed(out, run).push(s.last()), Seq::empty())
        }
    }
}

/// A text with each maximal digit run spelled out in place.
pub open spec fn runs_expanded(s: Seq<char>) -> Seq<char> {
    flushed(scanned(s).0, scanned(s).1)
}

/// A token of nothing but apostrophes.
pub open spec fn only_quotes(t: Seq<char>) -> bool {
    forall|i: int| #![trigger t[i]] 0 <= i < t.len() ==> t[i] == '\''
}

/// The tokens that are more than apostrophes.
pub open spec fn without_quotes(tokens: Seq<Seq<char>>) -> Seq<Seq<char>>
    decreases tokens.len(),
{
    if tokens.len() == 0 {
        Seq::empty()
    } else if only_quotes(tokens.last()) {
        without_quotes(tokens.drop_last())
    } else {
        without_quotes(tokens.drop_last()).push(tokens.last())
    }
}

/// A lower-cased word with its numbers spelled out: an ordinal as a whole,
/// otherwise every digit run in place.
pub open spec fn expanded_word(lowered: Seq<char>) -> Seq<char> {
    match ordinal_digits(kept_only(lowered)) {
        Some(digits) => joined(number_words(digits, true), " "@),
        None => runs_expanded(lowered),
    }
}

/// The tokens of one lower-cased word; none for pure punctuation, several for
/// a number.
pub open spec fn word_tokens(lowered: Seq<char>) -> Seq<Seq<char>> {
    without_quotes(fields(expanded_word(lowered), false))
}

/// The tokens of a list of words, lower-cased.
pub open spec fn words_tokens(words: Seq<Seq<char>>) -> Seq<Seq<char>>
    decreases words.len(),
{
    if words.len() == 0 {
        Seq::empty()
    } else {
        words_tokens(words.drop_last()) + word_tokens(lowercased(words.last()))
    }
}

/// The tokens of a query.
pub open spec fn query_tokens(query: Seq<char>) -> Seq<Seq<char>> {
    words_tokens(fields(query, true))
}

/// The maximal runs of field characters of a text.
pub fn split_fields(s: &str, words: bool) -> (out: Vec<String>)
    ensures
        texts(out@) == fields(s@, words),
{
    let chars: Vec<char> = chars_of(s);
    let mut out: Vec<String> = Vec::new();
    let mut i: usize = 0;
    assert(texts(out@) =~= Seq::empty());
    assert(chars@.take(0) =~= Seq::empty());
    while i < chars.len()
        invariant
            i <= chars@.len(),
            texts(out@) == fields(chars@.take(i as int), words),
        decreases chars@.len() - i,
    {
        let ghost now = chars@.take(i + 1);
        let ghost before = texts(out@);
        proof {
            assert(now.drop_last() =~= chars@.take(i as int));
            lemma_open_field(chars@.take(i as int), words);
        }
        let c: char = chars[i];
        let is_field: bool = if words {
            !is_whitespace(c)
        } else {
            keep(c)
        };
        if is_field {
            let extends: bool = i > 0 && if words {
                !is_whitespace(chars[i - 1])
            } else {
                keep(chars[i - 1])
            };
            if extends {
                assert(now[i - 1] == chars@[i - 1]);
                let mut field: String = match out.pop() {
                    Some(f) => f,
                    None => String::new(),
                };
                field.push(c);
                out.push(field);
                assert(texts(out@) =~= before.drop_last().push(before.last().push(c)));
            } else {
                let mut field: String = String::new();
                field.push(c);
                out.push(field);
                assert(field@ =~= seq![c]);
                assert(texts(out@) =~= before.push(seq![c]));
            }
        }
        i = i + 1;
    }
    assert(chars@.take(i as int) =~= chars@);
    out
}

/// Where a text ends in a field character, its last field is open.
proof fn lemma_open_field(s: Seq<char>, words: bool)
    ensures
        s.len() > 0 && field_char(s.last(), words) ==> fields(s, words).len() > 0,
{
}

/// The kept characters of a text.
fn strip(chars: &Vec<char>) -> (out: Vec<char>)
    ensures
        out@ == kept_only(chars@),
{
    let mut out: Vec<char> = Vec::new();
    let mut i: usize = 0;
    assert(chars@.take(0) =~= Seq::empty());
    while i < chars.len()
        invariant
            i <= chars@.len(),
            out@ == kept_only(chars@.take(i as int)),
        decreases chars@.len() - i,
    {
        assert(chars@.take(i + 1).drop_last() =~= chars@.take(i as int));
        if keep(chars[i]) {
            out.push(chars[i]);
        }
        i = i + 1;
    }
    assert(chars@.take(i as int) =~= chars@);
    out
}

/// The digits of an ordinal, where the stripped word is one.
pub fn match_ordinal(stripped: &Vec<char>) -> (r: Option<Vec<char>>)
    ensures
        r is Some == ordinal_digits(stripped@) is Some,
        r is Some ==> r->0@ == ordinal_digits(stripped@)->0 && all_digits(r->0@),
{
    let n: usize = stripped.len();
    if n < 3 {
        return None;
    }
    let suffix: String = string_of(stripped.as_slice(), n - 2, n);
    assert(suffix@ =~= stripped@.skip(n - 2));
    if !(same(suffix.as_str(), "st") || same(suffix.as_str(), "nd") || same(suffix.as_str(), "rd")
        || same(suffix.as_str(), "th")) {
        return None;
    }
    let mut digits: Vec<char> = Vec::new();
    let mut i: usize = 0;
    while i < n - 2
        invariant
            i <= n - 2,
            n == stripped@.len(),
            n >= 3,
            digits@ =~= stripped@.take(i as int),
            all_digits(digits@),
        decreases n - i,
    {
        let c: char = stripped[i];
        if !('0' <= c && c <= '9') {
            assert(stripped@.take(n - 2)[i as int] == c);
            assert(!all_digits(stripped@.take(n - 2)));
            return None;
        }
        digits.push(c);
        i = i + 1;
    }
    Some(digits)
}

/// Closes an open digit run: its words go to the text, set off by spaces.
pub fn flush_run(run: &mut Vec<char>, s: &mut String)
    requires
        all_digits(old(run)@),
    ensures
        final(run)@ == Seq::<char>::empty(),
        final(s)@ == flushed(old(s)@, old(run)@),
{
    if run.len() > 0 {
        s.push(' ');
        s.append(join(&expand_number(run, false), " ").as_str());
        s.append(" ");
        run.clear();
    } else {
        assert(run@ =~= Seq::empty());
    }
}

/// The tokens of a word that is lower-cased already.
pub fn normalize_lowered(lowered: &str) -> (out: Vec<String>)
    ensures
        texts(out@) == word_tokens(lowered@),
{
    let chars: Vec<char> = chars_of(lowered);
    let stripped: Vec<char> = strip(&chars);
    let expanded: String = match match_ordinal(&stripped) {
        Some(digits) => join(&expand_number(&digits, true), " "),
        None => {
            let mut s: String = String::new();
            let mut run: Vec<char> = Vec::new();
            let mut i: usize = 0;
            assert(chars@.take(0) =~= Seq::empty());
            assert(s@ =~= Seq::empty());
            while i < chars.len()
                invariant
                    i <= chars@.len(),
                    all_digits(run@),
                    scanned(chars@.take(i as int)) == (s@, run@),
                decreases chars@.len() - i,
            {
                assert(chars@.take(i + 1).drop_last() =~= chars@.take(i as int));
                let c: char = chars[i];
                if '0' <= c && c <= '9' {
                    run.push(c);
                } else {
                    flush_run(&mut run, &mut s);
                    s.push(c);
                }
                i = i + 1;
            }
            assert(chars@.take(i as int) =~= chars@);
            flush_run(&mut run, &mut s);
            s
        },
    };
    let parts: Vec<String> = split_fields(expanded.as_str(), false);
    let ghost all = texts(parts@);
    let mut out: Vec<String> = Vec::new();
    let mut k: usize = 0;
    assert(texts(out@) =~= Seq::empty());
    assert(all.take(0) =~= Seq::empty());
    while k < parts.len()
        invariant
            k <= parts@.len(),
            all == texts(parts@),
            texts(out@) == without_quotes(all.take(k as int)),
        decreases parts@.len() - k,
    {
        assert(all.take(k + 1).drop_last() =~= all.take(k as int));
        assert(all.take(k + 1).last() == parts@[k as int]@);
        if !is_only_quotes(parts[k].as_str()) {
            push_arg(&mut out, parts[k].as_str());
        }
        k = k + 1;
    }
    assert(all.take(k as int) =~= all);
    out
}

fn is_only_quotes(t: &str) -> (r: bool)
    ensures
        r == only_quotes(t@),
{
    let chars: Vec<char> = chars_of(t);
    let mut i: usize = 0;
    while i < chars.len()
        invariant
            i <= chars@.len(),
            chars@ == t@,
            forall|j: int| #![trigger t@[j]] 0 <= j < i ==> t@[j] == '\'',
        decreases chars@.len() - i,
    {
        if chars[i] != '\'' {
            assert(t@[i as int] != '\'');
            return false;
        }
        i = i + 1;
    }
    true
}

/// The tokens of one whitespace-delimited word.
pub fn normalize_word(raw: &str) -> (out: Vec<String>)
    ensures
        texts(out@) == word_tokens(lowercased(raw@)),
{
    let lowered: String = lowercase(raw);
    normalize_lowered(lowered.as_str())
}

/// Normalizes a search query into the index's token stream.
pub fn normalize_query(query: &str) -> (out: Vec<String>)
    ensures
        texts(out@) == query_tokens(query@),
{
    let words: Vec<String> = split_fields(query, true);
    let ghost all = texts(words@);
    let mut out: Vec<String> = Vec::new();
    let mut i: usize = 0;
    assert(texts(out@) =~= Seq::empty());
    assert(all.take(0) =~= Seq::empty());
    while i < words.len()
        invariant
            i <= words@.len(),
            all == texts(words@),
            texts(out@) == words_tokens(all.take(i as int)),
        decreases words@.len() - i,
    {
        assert(all.take(i + 1).drop_last() =~= all.take(i as int));
        assert(all.take(i + 1).last() == words@[i as int]@);
        let mut tokens: Vec<String> = normalize_word(words[i].as_str());
        let ghost (a, b) = (texts(out@), texts(tokens@));
        out.append(&mut tokens);
        assert(texts(out@) =~= a + b);
        i = i + 1;
    }
    assert(all.take(i as int) =~= all);
    out
}

// ----------------------------------------------------------------------- laws

/// Nothing but lower-case letters.
pub open spec fn plain(w: Seq<char>) -> bool {
    forall|i: int| #![trigger w[i]] 0 <= i < w.len() ==> 'a' <= w[i] <= 'z'
}

/// Every word is plain.
pub open spec fn all_plain(ws: Seq<Seq<char>>) -> bool {
    forall|k: int| #![trigger ws[k]] 0 <= k < ws.len() ==> plain(ws[k])
}

/// No word is empty.
pub open spec fn all_named(ws: Seq<Seq<char>>) -> bool {
    forall|k: int| #![trigger ws[k]] 0 <= k < ws.len() ==> ws[k].len() > 0
}

/// No decimal digit.
pub open spec fn digitless(s: Seq<char>) -> bool {
    forall|i: int| #![trigger s[i]] 0 <= i < s.len() ==> !ascii_digit(s[i])
}

/// A token as the index holds it: lower-case letters and apostrophes, and not
/// apostrophes alone.
pub open spec fn clean(t: Seq<char>) -> bool {
    &&& forall|i: int| #![trigger t[i]] 0 <= i < t.len() ==> 'a' <= t[i] <= 'z' || t[i] == '\''
    &&& !only_quotes(t)
}

proof fn lemma_unit_plain(n: int)
    ensures
        plain(unit(n)),
        unit(n).len() > 0,
{
    reveal_strlit("zero");
    reveal_strlit("one");
    reveal_strlit("two");
    reveal_strlit("three");
    reveal_strlit("four");
    reveal_strlit("five");
    reveal_strlit("six");
    reveal_strlit("seven");
    reveal_strlit("eight");
    reveal_strlit("nine");
    reveal_strlit("ten");
    reveal_strlit("eleven");
    reveal_strlit("twelve");
    reveal_strlit("thirteen");
    reveal_strlit("fourteen");
    reveal_strlit("fifteen");
    reveal_strlit("sixteen");
    reveal_strlit("seventeen");
    reveal_strlit("eighteen");
    reveal_strlit("nineteen");
}

proof fn lemma_ten_plain(n: int)
    ensures
        plain(ten(n)),
        ten(n).len() > 0,
{
    reveal_strlit("twenty");
    reveal_strlit("thirty");
    reveal_strlit("forty");
    reveal_strlit("fifty");
    reveal_strlit("sixty");
    reveal_strlit("seventy");
    reveal_strlit("eighty");
    reveal_strlit("ninety");
}

proof fn lemma_scale_plain(i: int)
    ensures
        plain(scale(i)),
        scale(i).len() > 0,
{
    reveal_strlit("thousand");
    reveal_strlit("million");
    reveal_strlit("billion");
    reveal_strlit("trillion");
    reveal_strlit("quadrillion");
    reveal_strlit("quintillion");
    reveal_strlit("sextillion");
    reveal_strlit("septillion");
    reveal_strlit("octillion");
    reveal_strlit("nonillion");
    reveal_strlit("decillion");
    reveal_strlit("undecillion");
}

proof fn lemma_group_plain(n: int)
    ensures
        all_plain(group(n)),
        all_plain(sub_hundred(n)),
        all_named(group(n)),
        all_named(sub_hundred(n)),
{
    reveal_strlit("hundred");
    reveal_strlit("and");
    lemma_unit_plain(n);
    lemma_unit_plain(n % 10);
    lemma_unit_plain(n / 100);
    lemma_ten_plain(n / 10);
    let m = n % 100;
    lemma_unit_plain(m);
    lemma_unit_plain(m % 10);
    lemma_ten_plain(m / 10);
    assert(all_plain(sub_hundred(m)));
}

proof fn lemma_scaled_plain(n: nat, i: nat)
    ensures
        all_plain(scaled(n, i)),
        all_named(scaled(n, i)),
    decreases n,
{
    if n > 0 {
        lemma_scaled_plain(n / 1000, i + 1);
        lemma_group_plain((n % 1000) as int);
        lemma_scale_plain(i - 1);
        reveal_strlit("and");
    }
}

proof fn lemma_number_words_plain(digits: Seq<char>, as_ordinal: bool)
    ensures
        all_plain(number_words(digits, as_ordinal)),
        all_named(number_words(digits, as_ordinal)),
{
    if digits.len() == 0 || value(digits) > u128::MAX {
        assert forall|k: int| #![trigger spelled(digits)[k]] 0 <= k < spelled(
            digits,
        ).len() implies plain(spelled(digits)[k]) && spelled(digits)[k].len() > 0 by {
            lemma_unit_plain(digits[k] as u32 - 48);
        }
    } else {
        let n = value(digits);
        reveal_strlit("zero");
        lemma_scaled_plain(n, 0);
        lemma_cardinal_nonempty(n);
        assert(all_plain(cardinal(n)));
        assert(all_named(cardinal(n)));
        if as_ordinal {
            let w = cardinal(n).last();
            assert(plain(w)) by {
                assert(cardinal(n)[cardinal(n).len() - 1] == w);
            }
            reveal_strlit("first");
            reveal_strlit("second");
            reveal_strlit("third");
            reveal_strlit("fifth");
            reveal_strlit("eighth");
            reveal_strlit("ninth");
            reveal_strlit("twelfth");
            reveal_strlit("ieth");
            reveal_strlit("th");
            assert(plain(ordinal_word(w)));
            assert(ordinal_word(w).len() > 0);
        }
    }
}

proof fn lemma_joined_digitless(ws: Seq<Seq<char>>)
    requires
        all_plain(ws),
    ensures
        digitless(joined(ws, " "@)),
    decreases ws.len(),
{
    reveal_strlit(" ");
    if ws.len() == 1 {
        assert(plain(ws[0]));
    } else if ws.len() > 1 {
        let before = ws.drop_last();
        assert forall|k: int| #![trigger before[k]] 0 <= k < before.len() implies plain(
            before[k],
        ) by {
            assert(plain(ws[k]));
        }
        lemma_joined_digitless(before);
        assert(plain(ws[ws.len() - 1]));
    }
}

proof fn lemma_flushed_digitless(out: Seq<char>, run: Seq<char>)
    requires
        digitless(out),
    ensures
        digitless(flushed(out, run)),
{
    lemma_number_words_plain(run, false);
    lemma_joined_digitless(number_words(run, false));
    reveal_strlit(" ");
}

proof fn lemma_scanned_digitless(s: Seq<char>)
    ensures
        digitless(scanned(s).0),
    decreases s.len(),
{
    if s.len() > 0 {
        lemma_scanned_digitless(s.drop_last());
        let (out, run) = scanned(s.drop_last());
        lemma_flushed_digitless(out, run);
    }
}

proof fn lemma_expanded_digitless(lowered: Seq<char>)
    ensures
        digitless(expanded_word(lowered)),
{
    match ordinal_digits(kept_only(lowered)) {
        Some(digits) => {
            lemma_number_words_plain(digits, true);
            lemma_joined_digitless(number_words(digits, true));
        },
        None => {
            lemma_scanned_digitless(lowered);
            lemma_flushed_digitless(scanned(lowered).0, scanned(lowered).1);
        },
    }
}

proof fn lemma_fields_kept(s: Seq<char>)
    requires
        digitless(s),
    ensures
        forall|k: int, i: int|
            #![trigger fields(s, false)[k][i]]
            0 <= k < fields(s, false).len() && 0 <= i < fields(s, false)[k].len() ==> kept(
                fields(s, false)[k][i],
            ) && !ascii_digit(fields(s, false)[k][i]),
    decreases s.len(),
{
    if s.len() > 0 {
        let before = s.drop_last();
        assert forall|i: int| #![trigger before[i]] 0 <= i < before.len() implies !ascii_digit(
            before[i],
        ) by {
            assert(!ascii_digit(s[i]));
        }
        lemma_fields_kept(before);
        let n = s.len() as int;
        let fs = fields(before, false);
        let now = fields(s, false);
        if field_char(s[n - 1], false) && n > 1 && field_char(s[n - 2], false) {
            lemma_open_field(before, false);
            assert(now =~= fs.drop_last().push(fs.last().push(s[n - 1])));
            assert forall|k: int, i: int|
                #![trigger now[k][i]]
                0 <= k < now.len() && 0 <= i < now[k].len() implies kept(now[k][i])
                && !ascii_digit(now[k][i]) by {
                if k < fs.len() - 1 || i < fs[k].len() {
                    assert(now[k][i] == fs[k][i]);
                }
            }
        } else {
            assert forall|k: int, i: int|
                #![trigger now[k][i]]
                0 <= k < now.len() && 0 <= i < now[k].len() implies kept(now[k][i])
                && !ascii_digit(now[k][i]) by {
                if k < fs.len() {
                    assert(now[k][i] == fs[k][i]);
                }
            }
        }
    }
}

proof fn lemma_without_quotes_clean(tokens: Seq<Seq<char>>)
    requires
        forall|k: int, i: int|
            #![trigger tokens[k][i]]
            0 <= k < tokens.len() && 0 <= i < tokens[k].len() ==> kept(tokens[k][i])
                && !ascii_digit(tokens[k][i]),
    ensures
        forall|k: int|
            #![trigger without_quotes(tokens)[k]]
            0 <= k < without_quotes(tokens).len() ==> clean(without_quotes(tokens)[k]),
    decreases tokens.len(),
{
    if tokens.len() > 0 {
        let before = tokens.drop_last();
        assert forall|k: int, i: int|
            #![trigger before[k][i]]
            0 <= k < before.len() && 0 <= i < before[k].len() implies kept(before[k][i])
            && !ascii_digit(before[k][i]) by {
            assert(tokens[k][i] == before[k][i]);
        }
        lemma_without_quotes_clean(before);
        let t = tokens.last();
        assert forall|i: int| #![trigger t[i]] 0 <= i < t.len() implies 'a' <= t[i] <= 'z' || t[i]
            == '\'' by {
            assert(tokens[tokens.len() - 1][i] == t[i]);
        }
        let now = without_quotes(tokens);
        let prior = without_quotes(before);
        assert forall|k: int| #![trigger now[k]] 0 <= k < now.len() implies clean(now[k]) by {
            if k < prior.len() {
                assert(now[k] == prior[k]);
            }
        }
    }
}

/// Every token of a word is clean: letters and apostrophes only, never a digit
/// or punctuation, and never apostrophes alone.
pub proof fn law_tokens_are_clean(lowered: Seq<char>)
    ensures
        forall|k: int|
            #![trigger word_tokens(lowered)[k]]
            0 <= k < word_tokens(lowered).len() ==> clean(word_tokens(lowered)[k]),
{
    lemma_expanded_digitless(lowered);
    lemma_fields_kept(expanded_word(lowered));
    lemma_without_quotes_clean(fields(expanded_word(lowered), false));
}

proof fn lemma_plain_text(t: Seq<char>)
    requires
        forall|i: int| #![trigger t[i]] 0 <= i < t.len() ==> kept(t[i]) && !ascii_digit(t[i]),
    ensures
        kept_only(t) == t,
        scanned(t) == (t, Seq::<char>::empty()),
        t.len() > 0 ==> fields(t, false) == seq![t],
    decreases t.len(),
{
    if t.len() > 0 {
        let before = t.drop_last();
        assert forall|i: int| #![trigger before[i]] 0 <= i < before.len() implies kept(before[i])
            && !ascii_digit(before[i]) by {
            assert(kept(t[i]) && !ascii_digit(t[i]));
        }
        lemma_plain_text(before);
        assert(kept(t[t.len() - 1]) && !ascii_digit(t[t.len() - 1]));
        assert(kept_only(t) =~= t);
        assert(scanned(t).0 =~= t);
        if t.len() > 1 {
            assert(kept(t[t.len() - 2]));
            assert(fields(t, false) =~= seq![t]) by {
                assert(before.push(t.last()) =~= t);
                assert(fields(t, false) =~= seq![before].drop_last().push(
                    seq![before].last().push(t.last()),
                ));
            }
        } else {
            assert(fields(before, false) =~= Seq::empty());
            assert(seq![t[0]] =~= t);
            assert(fields(t, false) =~= seq![t]);
        }
    } else {
        assert(kept_only(t) =~= t);
        assert(scanned(t).0 =~= t);
    }
}

/// Normalization is stable: an index token normalizes to itself.
pub proof fn law_tokens_are_stable(t: Seq<char>)
    requires
        clean(t),
    ensures
        word_tokens(t) == seq![t],
{
    assert(t.len() > 0) by {
        if t.len() == 0 {
            assert(only_quotes(t));
        }
    }
    lemma_plain_text(t);
    if ordinal_digits(t) is Some {
        assert(ascii_digit(t.take(t.len() - 2)[0]));
        assert(t.take(t.len() - 2)[0] == t[0]);
    }
    assert(expanded_word(t) == t);
    let one = seq![t];
    assert(one.drop_last() =~= Seq::empty());
    assert(without_quotes(one.drop_last()) =~= Seq::empty());
    assert(without_quotes(one) =~= seq![t]);
}

/// A run of characters that belong to a field is one field; characters that do not
/// are between fields, and belong to none.
pub proof fn law_fields_are_runs(a: Seq<char>, sep: char, b: Seq<char>, words: bool)
    requires
        !field_char(sep, words),
    ensures
        fields(a.push(sep) + b, words) == fields(a, words) + fields(b, words),
        (b.len() > 0 && forall|i: int| #![trigger b[i]] 0 <= i < b.len() ==> field_char(b[i], words))
            ==> fields(b, words) == seq![b],
    decreases b.len(),
{
    let s = a.push(sep) + b;
    let n = s.len() as int;
    if b.len() == 0 {
        assert(s =~= a.push(sep));
        assert(s.drop_last() =~= a);
        assert(fields(a, words) + fields(b, words) =~= fields(a, words));
    } else {
        let c = b.drop_last();
        let x = b.last();
        law_fields_are_runs(a, sep, c, words);
        assert(s.drop_last() =~= a.push(sep) + c);
        assert(s[n - 1] == x);
        if b.len() > 1 {
            assert(s[n - 2] == c.last());
        } else {
            assert(s[n - 2] == sep);
        }
        lemma_open_field(c, words);
        let (fa, fc) = (fields(a, words), fields(c, words));
        assert(fields(s, words) =~= fa + fields(b, words)) by {
            if field_char(x, words) && b.len() > 1 && field_char(c.last(), words) {
                assert((fa + fc).drop_last() =~= fa + fc.drop_last());
                assert((fa + fc).last() == fc.last());
            }
        }
        if forall|i: int| #![trigger b[i]] 0 <= i < b.len() ==> field_char(b[i], words) {
            assert forall|i: int| #![trigger c[i]] 0 <= i < c.len() implies field_char(
                c[i],
                words,
            ) by {
                assert(b[i] == c[i]);
            }
            assert(field_char(b[b.len() - 1], words));
            if b.len() > 1 {
                assert(field_char(b[b.len() - 2], words));
                assert(fields(b, words) =~= seq![b]) by {
                    assert(c.push(x) =~= b);
                    assert(seq![c].drop_last() =~= Seq::empty());
                }
            } else {
                assert(fields(c, words) =~= Seq::empty());
                assert(seq![b[0]] =~= b);
                assert(fields(b, words) =~= seq![b]);
            }
        }
    }
}

proof fn lemma_joined_fields(ws: Seq<Seq<char>>)
    requires
        all_plain(ws),
        all_named(ws),
    ensures
        fields(joined(ws, " "@), false) == ws,
    decreases ws.len(),
{
    reveal_strlit(" ");
    if ws.len() == 0 {
        assert(fields(joined(ws, " "@), false) =~= ws);
    } else {
        let before = ws.drop_last();
        let w = ws.last();
        assert(ws[ws.len() - 1] == w);
        assert forall|k: int| #![trigger before[k]] 0 <= k < before.len() implies plain(before[k])
            && before[k].len() > 0 by {
            assert(before[k] == ws[k]);
        }
        lemma_joined_fields(before);
        assert forall|i: int| #![trigger w[i]] 0 <= i < w.len() implies field_char(w[i], false) by {
            assert('a' <= w[i] <= 'z');
        }
        crate::text::law_joined_parts(before, w, " "@);
        law_fields_are_runs(joined(before, " "@), ' ', w, false);
        assert(ws =~= before.push(w));
        if before.len() > 0 {
            assert(joined(ws, " "@) =~= joined(before, " "@).push(' ') + w);
            assert(before + seq![w] =~= ws);
        } else {
            assert(ws =~= seq![w]);
        }
    }
}

proof fn lemma_no_quotes(ws: Seq<Seq<char>>)
    requires
        all_plain(ws),
        all_named(ws),
    ensures
        without_quotes(ws) == ws,
    decreases ws.len(),
{
    if ws.len() > 0 {
        let before = ws.drop_last();
        assert forall|k: int| #![trigger before[k]] 0 <= k < before.len() implies plain(before[k])
            && before[k].len() > 0 by {
            assert(before[k] == ws[k]);
        }
        lemma_no_quotes(before);
        let w = ws[ws.len() - 1];
        assert(plain(w));
        assert('a' <= w[0] <= 'z');
        assert(ws =~= before.push(w));
    } else {
        assert(without_quotes(ws) =~= ws);
    }
}

proof fn lemma_all_digits(s: Seq<char>)
    requires
        all_digits(s),
    ensures
        kept_only(s) == s,
        scanned(s) == (Seq::<char>::empty(), s),
    decreases s.len(),
{
    if s.len() > 0 {
        let before = s.drop_last();
        assert forall|i: int| #![trigger before[i]] 0 <= i < before.len() implies ascii_digit(
            before[i],
        ) by {
            assert(s[i] == before[i]);
        }
        lemma_all_digits(before);
        assert(ascii_digit(s[s.len() - 1]));
        assert(before.push(s.last()) =~= s);
    } else {
        assert(kept_only(s) =~= s);
        assert(scanned(s).1 =~= s);
    }
}

/// A number is indexed by its words.
pub proof fn law_numbers_are_indexed_by_their_words(n: nat)
    requires
        n <= u128::MAX,
    ensures
        word_tokens(crate::text::dec(n)) == cardinal(n),
{
    let d = crate::text::dec(n);
    crate::text::law_numerals_read_back(n);
    lemma_all_digits(d);
    if ordinal_digits(d) is Some {
        let k = d.len() as int;
        reveal_strlit("st");
        reveal_strlit("nd");
        reveal_strlit("rd");
        reveal_strlit("th");
        assert(d.skip(k - 2)[0] == d[k - 2]);
        assert(ascii_digit(d[k - 2]));
    }
    let ws = number_words(d, false);
    assert(ws == cardinal(n));
    lemma_number_words_plain(d, false);
    lemma_joined_fields(ws);
    lemma_no_quotes(ws);
    reveal_strlit(" ");
    let j = joined(ws, " "@);
    assert(expanded_word(d) =~= (Seq::empty().push(' ') + j).push(' ') + Seq::empty());
    law_fields_are_runs(Seq::empty().push(' ') + j, ' ', Seq::empty(), false);
    law_fields_are_runs(Seq::empty(), ' ', j, false);
    assert(fields(expanded_word(d), false) =~= ws);
}

/// A number with an ordinal's ending is indexed by the words of the ordinal.
pub proof fn law_ordinals_are_indexed_by_their_words(n: nat, ending: Seq<char>)
    requires
        n <= u128::MAX,
        ending == "st"@ || ending == "nd"@ || ending == "rd"@ || ending == "th"@,
    ensures
        word_tokens(crate::text::dec(n) + ending) == ordinal(n),
{
    let d = crate::text::dec(n);
    let s = d + ending;
    crate::text::law_numerals_read_back(n);
    reveal_strlit("st");
    reveal_strlit("nd");
    reveal_strlit("rd");
    reveal_strlit("th");
    assert(ending.len() == 2);
    lemma_all_digits(d);
    let one = d.push(ending[0]);
    assert(one.drop_last() =~= d);
    assert(s.drop_last() =~= one);
    assert(s.last() == ending[1]);
    assert(kept(ending[0]) && kept(ending[1]));
    assert(kept_only(one) =~= one);
    assert(kept_only(s) =~= s);
    assert(s.skip(s.len() - 2) =~= ending);
    assert(s.take(s.len() - 2) =~= d);
    let ws = number_words(d, true);
    assert(ws == ordinal(n));
    lemma_number_words_plain(d, true);
    lemma_joined_fields(ws);
    lemma_no_quotes(ws);
}

/// Ordinals end irregularly in these words, in `-ieth` after `-y`, and else in
/// `-th`.
pub proof fn law_ordinals_change_the_last_word(w: Seq<char>)
    ensures
        ordinal_word("one"@) == "first"@,
        ordinal_word("two"@) == "second"@,
        ordinal_word("three"@) == "third"@,
        ordinal_word("five"@) == "fifth"@,
        ordinal_word("eight"@) == "eighth"@,
        ordinal_word("nine"@) == "ninth"@,
        ordinal_word("twelve"@) == "twelfth"@,
        ordinal_word(w.push('y')) == w + "ieth"@,
        w.len() > 6 ==> ordinal_word(w.push('d')) == w.push('d') + "th"@,
{
    reveal_strlit("one");
    reveal_strlit("two");
    reveal_strlit("three");
    reveal_strlit("five");
    reveal_strlit("eight");
    reveal_strlit("nine");
    reveal_strlit("twelve");
    assert("one"@[0] == 'o' && "two"@[0] == 't');
    assert("three"@.len() == 5 && "eight"@.len() == 5 && "three"@[0] == 't' && "eight"@[0] == 'e');
    assert("five"@.len() == 4 && "nine"@.len() == 4 && "five"@[0] == 'f' && "nine"@[0] == 'n');
    assert("twelve"@.len() == 6);
    let y = w.push('y');
    assert(y.last() == 'y');
    assert("one"@.last() == 'e' && "two"@.last() == 'o' && "three"@.last() == 'e');
    assert("five"@.last() == 'e' && "eight"@.last() == 't' && "nine"@.last() == 'e');
    assert("twelve"@.last() == 'e');
    assert(y.drop_last() =~= w);
}

proof fn lemma_scanned_letters(a: Seq<char>, b: Seq<char>)
    requires
        digitless(b),
        scanned(a).1.len() == 0,
    ensures
        scanned(a + b) == (scanned(a).0 + b, Seq::<char>::empty()),
    decreases b.len(),
{
    if b.len() == 0 {
        assert(a + b =~= a);
        assert(scanned(a).0 + b =~= scanned(a).0);
        assert(scanned(a).1 =~= Seq::empty());
    } else {
        let c = b.drop_last();
        assert forall|i: int| #![trigger c[i]] 0 <= i < c.len() implies !ascii_digit(c[i]) by {
            assert(b[i] == c[i]);
        }
        lemma_scanned_letters(a, c);
        assert((a + b).drop_last() =~= a + c);
        assert((a + b).last() == b[b.len() - 1]);
        assert(scanned(a).0 + b =~= (scanned(a).0 + c).push(b.last()));
    }
}

/// What is neither a letter, a digit nor an apostrophe parts a word in two.
pub proof fn law_punctuation_parts_words(a: Seq<char>, c: char, b: Seq<char>)
    requires
        clean(a),
        clean(b),
        !kept(c),
    ensures
        word_tokens(a.push(c) + b) == seq![a, b],
{
    let s = a.push(c) + b;
    assert(digitless(s)) by {
        assert forall|i: int| #![trigger s[i]] 0 <= i < s.len() implies !ascii_digit(s[i]) by {
            if i < a.len() {
                assert(s[i] == a[i]);
            } else if i > a.len() {
                assert(s[i] == b[i - a.len() - 1]);
            }
        }
    }
    lemma_scanned_letters(Seq::empty(), s);
    assert(Seq::<char>::empty() + s =~= s);
    assert(runs_expanded(s) == s);
    lemma_kept_digitless(s);
    if ordinal_digits(kept_only(s)) is Some {
        assert(ascii_digit(kept_only(s).take(kept_only(s).len() - 2)[0]));
        assert(kept_only(s).take(kept_only(s).len() - 2)[0] == kept_only(s)[0]);
    }
    assert(a.len() > 0 && b.len() > 0) by {
        if a.len() == 0 {
            assert(only_quotes(a));
        }
        if b.len() == 0 {
            assert(only_quotes(b));
        }
    }
    law_fields_are_runs(a, c, b, false);
    law_fields_are_runs(Seq::empty(), c, a, false);
    let two = seq![a, b];
    assert(fields(s, false) =~= two);
    assert(two.drop_last() =~= seq![a]);
    assert(seq![a].drop_last() =~= Seq::empty());
    assert(without_quotes(seq![a]) =~= seq![a]) by {
        assert(without_quotes(seq![a].drop_last()) =~= Seq::empty());
    }
    assert(without_quotes(two) =~= two);
}

proof fn lemma_kept_digitless(s: Seq<char>)
    requires
        digitless(s),
    ensures
        digitless(kept_only(s)),
    decreases s.len(),
{
    if s.len() > 0 {
        let c = s.drop_last();
        assert forall|i: int| #![trigger c[i]] 0 <= i < c.len() implies !ascii_digit(c[i]) by {
            assert(s[i] == c[i]);
        }
        lemma_kept_digitless(c);
        assert(!ascii_digit(s[s.len() - 1]));
    }
}

/// A query is normalized word by word: the tokens of two queries with a blank
/// between them are those of the first and then those of the second.
pub proof fn law_queries_are_normalized_by_word(a: Seq<char>, b: Seq<char>)
    ensures
        query_tokens(a.push(' ') + b) == query_tokens(a) + query_tokens(b),
{
    law_fields_are_runs(a, ' ', b, true);
    lemma_words_tokens(fields(a, true), fields(b, true));
}

proof fn lemma_words_tokens(a: Seq<Seq<char>>, b: Seq<Seq<char>>)
    ensures
        words_tokens(a + b) == words_tokens(a) + words_tokens(b),
    decreases b.len(),
{
    if b.len() == 0 {
        assert(a + b =~= a);
        assert(words_tokens(a) + words_tokens(b) =~= words_tokens(a));
    } else {
        lemma_words_tokens(a, b.drop_last());
        assert((a + b).drop_last() =~= a + b.drop_last());
        assert((a + b).last() == b.last());
        assert(words_tokens(a + b) =~= words_tokens(a) + words_tokens(b));
    }
}

/// A query of one word has the tokens of that word in lower case.
pub proof fn law_a_word_is_a_query(w: Seq<char>)
    requires
        w.len() > 0,
        forall|i: int| #![trigger w[i]] 0 <= i < w.len() ==> !whitespace(w[i]),
    ensures
        query_tokens(w) == word_tokens(lowercased(w)),
{
    law_fields_are_runs(Seq::empty(), ' ', w, true);
    let one = seq![w];
    assert(one.drop_last() =~= Seq::empty());
    assert(words_tokens(one.drop_last()) =~= Seq::empty());
    assert(words_tokens(one) =~= word_tokens(lowercased(w)));
}

} // verus!
