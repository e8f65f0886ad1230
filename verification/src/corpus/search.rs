//! Word and phrase search: the full-text query of a token sequence, and the
//! mapping of hits back to exact word spans via per-word ordinals.
use super::normalize::{normalize_query, query_tokens};
use crate::edl::rebind::CorpusSource;
use crate::number::{fmt_two, real_text, two_decimals, Real};
use crate::text::{chars_of, dec, join, joined, push_dec, same, signed_dec, string_of, texts};
use core::ops::Range;
use vstd::prelude::*;
use vstd::string::StringExecFns;

verus! {

/// A word of an utterance with its span, in nanoseconds.
#[derive(Debug)]
pub struct WordSpan {
    pub text: String,
    pub t_start: i64,
    pub t_end: i64,
    pub confidence: Option<Real>,
}

/// One utterance matching a query, with its full token stream and the
/// positions of every phrase occurrence.
#[derive(Debug)]
pub struct SearchHit {
    pub utterance_id: i64,
    /// The source the utterance is in.
    pub source: CorpusSource,
    pub t_start: i64,
    pub t_end: i64,
    /// Raw transcript text, for display.
    pub text: String,
    pub speaker: Option<String>,
    pub multi_speaker: bool,
    pub confidence: Option<Real>,
    /// The utterance's normalized tokens with spans, in ordinal order.
    pub words: Vec<WordSpan>,
    /// Each phrase occurrence as a range into `words`.
    pub matches: Vec<Range<usize>>,
}

/// The texts of a word list.
pub open spec fn word_texts(words: Seq<WordSpan>) -> Seq<Seq<char>> {
    Seq::new(words.len(), |i: int| words[i].text@)
}

/// A token without leading apostrophes.
pub open spec fn unquote_front(s: Seq<char>) -> Seq<char>
    decreases s.len(),
{
    if s.len() > 0 && s[0] == '\'' {
        unquote_front(s.drop_first())
    } else {
        s
    }
}

/// A token without trailing apostrophes.
pub open spec fn unquote_back(s: Seq<char>) -> Seq<char>
    decreases s.len(),
{
    if s.len() > 0 && s.last() == '\'' {
        unquote_back(s.drop_last())
    } else {
        s
    }
}

/// A token as the full-text index sees its edges: without apostrophes.
pub open spec fn unquoted(s: Seq<char>) -> Seq<char> {
    unquote_back(unquote_front(s))
}

/// Whether a token sequence occurs among words at position `i`.
pub open spec fn occurs_at(words: Seq<Seq<char>>, tokens: Seq<Seq<char>>, i: int) -> bool {
    &&& 0 <= i && i + tokens.len() <= words.len()
    &&& forall|j: int|
        #![trigger tokens[j]]
        0 <= j < tokens.len() ==> unquoted(tokens[j]) == unquoted(words[i + j])
}

/// The positions below `n` at which a token sequence occurs, ascending.
pub open spec fn occurrences(words: Seq<Seq<char>>, tokens: Seq<Seq<char>>, n: int) -> Seq<int>
    decreases n,
{
    if n <= 0 {
        Seq::empty()
    } else if occurs_at(words, tokens, n - 1) {
        occurrences(words, tokens, n - 1).push(n - 1)
    } else {
        occurrences(words, tokens, n - 1)
    }
}

/// Ranges as pairs of integers.
pub open spec fn range_views(v: Seq<Range<usize>>) -> Seq<(int, int)> {
    Seq::new(v.len(), |i: int| (v[i].start as int, v[i].end as int))
}

/// Every occurrence of a token sequence among words, overlapping ones too, as
/// ranges.
pub open spec fn matches_of(words: Seq<Seq<char>>, tokens: Seq<Seq<char>>) -> Seq<(int, int)> {
    occurrences(words, tokens, words.len() as int + 1).map_values(
        |i: int| (i, i + tokens.len() as int),
    )
}

fn unquote(s: &str) -> (r: String)
    ensures
        r@ == unquoted(s@),
{
    let chars: Vec<char> = chars_of(s);
    let mut from: usize = 0;
    assert(chars@.skip(0) =~= chars@);
    while from < chars.len() && chars[from] == '\''
        invariant
            from <= chars@.len(),
            unquote_front(chars@) == unquote_front(chars@.skip(from as int)),
        decreases chars@.len() - from,
    {
        assert(chars@.skip(from as int).drop_first() =~= chars@.skip(from + 1));
        from = from + 1;
    }
    let ghost front = chars@.skip(from as int);
    assert(unquote_front(chars@) == front);
    let mut to: usize = chars.len();
    assert(front.take(to - from) =~= front);
    while to > from && chars[to - 1] == '\''
        invariant
            from <= to <= chars@.len(),
            front == chars@.skip(from as int),
            unquote_back(front) == unquote_back(front.take(to - from)),
        decreases to,
    {
        assert(front.take(to - from).last() == chars@[to - 1]);
        assert(front.take(to - from).drop_last() =~= front.take(to - from - 1));
        to = to - 1;
    }
    proof {
        if to > from {
            assert(front.take(to - from).last() == chars@[to - 1]);
        }
        assert(front.take(to - from) =~= chars@.subrange(from as int, to as int));
    }
    string_of(chars.as_slice(), from, to)
}

fn is_at(words: &Vec<WordSpan>, tokens: &Vec<String>, i: usize) -> (r: bool)
    requires
        i + tokens@.len() <= words@.len(),
    ensures
        r == occurs_at(word_texts(words@), texts(tokens@), i as int),
{
    let ghost (w, t) = (word_texts(words@), texts(tokens@));
    let mut j: usize = 0;
    while j < tokens.len()
        invariant
            w == word_texts(words@),
            t == texts(tokens@),
            i + tokens@.len() <= words@.len(),
            j <= tokens@.len(),
            forall|k: int| #![trigger t[k]] 0 <= k < j ==> unquoted(t[k]) == unquoted(w[i + k]),
        decreases tokens@.len() - j,
    {
        assert(i + j < words.len());
        assert(t[j as int] == tokens@[j as int]@);
        assert(w[i + j] == words@[i + j].text@);
        if !same(
            unquote(tokens[j].as_str()).as_str(),
            unquote(words[i + j].text.as_str()).as_str(),
        ) {
            return false;
        }
        j = j + 1;
    }
    true
}

/// Every (possibly overlapping) occurrence of the token sequence in the
/// utterance's words. Comparison ignores leading and trailing apostrophes, as
/// the full-text tokenizer does at token edges.
pub fn phrase_occurrences(words: &Vec<WordSpan>, tokens: &Vec<String>) -> (out: Vec<Range<usize>>)
    ensures
        range_views(out@) == matches_of(word_texts(words@), texts(tokens@)),
{
    let ghost (w, t) = (word_texts(words@), texts(tokens@));
    let mut out: Vec<Range<usize>> = Vec::new();
    if tokens.len() > words.len() {
        proof {
            lemma_no_occurrence(w, t, w.len() as int + 1);
        }
        assert(range_views(out@) =~= matches_of(w, t));
        return out;
    }
    let last: usize = words.len() - tokens.len();
    let mut i: usize = 0;
    let mut more: bool = true;
    let ghost shift = |k: int| (k, k + t.len() as int);
    assert(occurrences(w, t, 0) =~= Seq::empty());
    assert(range_views(out@) =~= occurrences(w, t, 0).map_values(shift));
    while more
        invariant
            w == word_texts(words@),
            t == texts(tokens@),
            last == words@.len() - tokens@.len(),
            shift == (|k: int| (k, k + t.len() as int)),
            more ==> i <= last,
            more ==> range_views(out@) == occurrences(w, t, i as int).map_values(shift),
            !more ==> range_views(out@) == occurrences(w, t, last + 1).map_values(shift),
        decreases last - i, (if more {
            1int
        } else {
            0
        }),
    {
        let ghost before = range_views(out@);
        assert(i + tokens.len() <= words.len());
        if is_at(words, tokens, i) {
            out.push(i..(i + tokens.len()));
            assert(range_views(out@) =~= before.push((i as int, i + t.len())));
        }
        assert(range_views(out@) =~= occurrences(w, t, i + 1).map_values(shift));
        if i == last {
            more = false;
        } else {
            i = i + 1;
        }
    }
    proof {
        lemma_occurrences_end(w, t, last + 1, w.len() as int + 1);
    }
    out
}

proof fn lemma_no_occurrence(w: Seq<Seq<char>>, t: Seq<Seq<char>>, n: int)
    requires
        t.len() > w.len(),
    ensures
        occurrences(w, t, n).len() == 0,
    decreases n,
{
    if n > 0 {
        lemma_no_occurrence(w, t, n - 1);
    }
}

proof fn lemma_occurrences_end(w: Seq<Seq<char>>, t: Seq<Seq<char>>, m: int, n: int)
    requires
        m + t.len() > w.len(),
        m <= n,
    ensures
        occurrences(w, t, m) == occurrences(w, t, n),
    decreases n - m,
{
    if m < n {
        lemma_occurrences_end(w, t, m, n - 1);
    }
}

/// Every match is a range of words of the query's length.
pub proof fn law_matches_are_word_ranges(words: Seq<Seq<char>>, tokens: Seq<Seq<char>>, k: int)
    requires
        0 <= k < matches_of(words, tokens).len(),
    ensures
        ({
            let (start, end) = matches_of(words, tokens)[k];
            0 <= start && end == start + tokens.len() && end <= words.len() && occurs_at(
                words,
                tokens,
                start,
            )
        }),
{
    lemma_occurrences_occur(words, tokens, words.len() as int + 1, k);
}

proof fn lemma_occurrences_occur(words: Seq<Seq<char>>, tokens: Seq<Seq<char>>, n: int, k: int)
    requires
        0 <= k < occurrences(words, tokens, n).len(),
    ensures
        occurs_at(words, tokens, occurrences(words, tokens, n)[k]),
    decreases n,
{
    if n > 0 {
        let before = occurrences(words, tokens, n - 1);
        if k < before.len() {
            lemma_occurrences_occur(words, tokens, n - 1, k);
        }
    }
}

impl SearchHit {
    /// Every match is a range of the hit's words.
    pub open spec fn wf(&self) -> bool {
        forall|k: int|
            #![trigger self.matches@[k]]
            0 <= k < self.matches@.len() ==> self.matches@[k].start < self.matches@[k].end
                <= self.words@.len()
    }

    /// Exact source-time span of one phrase occurrence.
    pub fn match_span(&self, m: &Range<usize>) -> (r: (i64, i64))
        requires
            m.start < m.end <= self.words@.len(),
        ensures
            r.0 == self.words@[m.start as int].t_start,
            r.1 == self.words@[m.end - 1].t_end,
    {
        (self.words[m.start].t_start, self.words[m.end - 1].t_end)
    }
}

/// A full-text phrase query: the tokens in quotes. Tokens hold only letters and
/// apostrophes, so the quotes cannot be broken.
pub open spec fn phrase_query(tokens: Seq<Seq<char>>) -> Seq<char> {
    "\""@ + joined(tokens, " "@) + "\""@
}

/// The full-text phrase query of a token sequence.
pub fn fts_query(tokens: &Vec<String>) -> (s: String)
    ensures
        s@ == phrase_query(texts(tokens@)),
{
    let mut s: String = "\"".to_owned();
    s.append(join(tokens, " ").as_str());
    s.append("\"");
    s
}

/// The tokens and the full-text query of a search; nothing to search for
/// where the query normalizes to nothing.
pub fn plan_search(query: &str) -> (r: Option<(Vec<String>, String)>)
    ensures
        r is None == (query_tokens(query@).len() == 0),
        r matches Some((tokens, fts)) ==> texts(tokens@) == query_tokens(query@) && fts@
            == phrase_query(query_tokens(query@)),
{
    let tokens: Vec<String> = normalize_query(query);
    assert(texts(tokens@).len() == tokens@.len());
    if tokens.len() == 0 {
        None
    } else {
        let fts: String = fts_query(&tokens);
        Some((tokens, fts))
    }
}

/// The occurrences that make an utterance a hit: word-row-exact ones. The
/// full-text tokenizer splits around apostrophes, so it can find more.
pub fn addressable(words: &Vec<WordSpan>, tokens: &Vec<String>) -> (r: Option<Vec<Range<usize>>>)
    requires
        tokens@.len() > 0,
    ensures
        r is None == (matches_of(word_texts(words@), texts(tokens@)).len() == 0),
        r is Some ==> range_views(r->0@) == matches_of(word_texts(words@), texts(tokens@)),
        r is Some ==> forall|k: int|
            #![trigger r->0@[k]]
            0 <= k < r->0@.len() ==> r->0@[k].start < r->0@[k].end <= words@.len(),
{
    let found: Vec<Range<usize>> = phrase_occurrences(words, tokens);
    assert(range_views(found@).len() == found@.len());
    if found.len() == 0 {
        None
    } else {
        proof {
            let (w, t) = (word_texts(words@), texts(tokens@));
            assert forall|k: int| #![trigger found@[k]] 0 <= k < found@.len() implies found@[k].start
                < found@[k].end <= words@.len() by {
                law_matches_are_word_ranges(w, t, k);
                assert(range_views(found@)[k] == matches_of(w, t)[k]);
            }
        }
        Some(found)
    }
}

// ---------------------------------------------------------------------- report

/// Whether an occurrence starts at word `i`.
pub open spec fn opens_at(matches: Seq<(int, int)>, i: int) -> bool {
    exists|k: int| #![trigger matches[k]] 0 <= k < matches.len() && matches[k].0 == i
}

/// Whether an occurrence ends with word `i`.
pub open spec fn closes_at(matches: Seq<(int, int)>, i: int) -> bool {
    exists|k: int| #![trigger matches[k]] 0 <= k < matches.len() && matches[k].1 == i + 1
}

/// The first `n` words of a token stream, with each occurrence bracketed.
pub open spec fn bracketed(
    words: Seq<Seq<char>>,
    matches: Seq<(int, int)>,
    n: int,
) -> Seq<char>
    decreases n,
{
    if n <= 0 {
        Seq::empty()
    } else {
        let i = n - 1;
        let before = bracketed(words, matches, i);
        let spaced = if before.len() > 0 {
            before.push(' ')
        } else {
            before
        };
        let opened = if opens_at(matches, i) {
            spaced.push('[')
        } else {
            spaced
        };
        let worded = opened + words[i];
        if closes_at(matches, i) {
            worded.push(']')
        } else {
            worded
        }
    }
}

fn opens(matches: &Vec<Range<usize>>, i: usize) -> (r: bool)
    ensures
        r == opens_at(range_views(matches@), i as int),
{
    let ghost v = range_views(matches@);
    let mut k: usize = 0;
    while k < matches.len()
        invariant
            k <= matches@.len(),
            v == range_views(matches@),
            forall|j: int| #![trigger v[j]] 0 <= j < k ==> v[j].0 != i,
        decreases matches@.len() - k,
    {
        assert(v[k as int].0 == matches@[k as int].start);
        if matches[k].start == i {
            return true;
        }
        k = k + 1;
    }
    false
}

fn closes(matches: &Vec<Range<usize>>, i: usize) -> (r: bool)
    ensures
        r == closes_at(range_views(matches@), i as int),
{
    let ghost v = range_views(matches@);
    let mut k: usize = 0;
    while k < matches.len()
        invariant
            k <= matches@.len(),
            v == range_views(matches@),
            forall|j: int| #![trigger v[j]] 0 <= j < k ==> v[j].1 != i + 1,
        decreases matches@.len() - k,
    {
        assert(v[k as int].1 == matches@[k as int].end);
        if matches[k].end > i && matches[k].end - i == 1 {
            return true;
        }
        k = k + 1;
    }
    false
}

/// The utterance's normalized token stream with each occurrence bracketed.
pub fn highlighted(hit: &SearchHit) -> (out: String)
    ensures
        out@ == bracketed(
            word_texts(hit.words@),
            range_views(hit.matches@),
            hit.words@.len() as int,
        ),
{
    let ghost (w, m) = (word_texts(hit.words@), range_views(hit.matches@));
    let mut out: String = String::new();
    let mut i: usize = 0;
    assert(out@ =~= bracketed(w, m, 0));
    while i < hit.words.len()
        invariant
            i <= hit.words@.len(),
            w == word_texts(hit.words@),
            m == range_views(hit.matches@),
            out@ == bracketed(w, m, i as int),
        decreases hit.words@.len() - i,
    {
        assert(w[i as int] == hit.words@[i as int].text@);
        if !out.as_str().is_empty() {
            out.push(' ');
        }
        if opens(&hit.matches, i) {
            out.push('[');
        }
        out.append(hit.words[i].text.as_str());
        if closes(&hit.matches, i) {
            out.push(']');
        }
        i = i + 1;
    }
    out
}

/// A confidence with two decimals, or a dash.
pub open spec fn confidence_text(c: Option<Real>) -> Seq<char> {
    match c {
        None => "—"@,
        Some(Real::Nano(n)) => two_decimals(n as int),
        Some(r) => real_text(r),
    }
}

/// A confidence with two decimals, or a dash.
pub fn fmt_confidence(c: &Option<Real>) -> (s: String)
    ensures
        s@ == confidence_text(*c),
{
    match c {
        None => "—".to_owned(),
        Some(r) => match r {
            Real::Nano(n) => fmt_two(*n as i128),
            _ => r.text(),
        },
    }
}

/// The summary line of one hit.
pub open spec fn hit_line(hit: SearchHit) -> Seq<char> {
    "source "@ + signed_dec(hit.source.id.0 as int) + "  "@ + two_decimals(hit.t_start as int)
        + "–"@ + two_decimals(hit.t_end as int) + "s  "@ + (match hit.speaker {
        Some(name) => name@,
        None => "(unknown speaker)"@,
    }) + "  conf "@ + confidence_text(hit.confidence)
}

/// The line of one occurrence.
pub open spec fn match_line(hit: SearchHit, m: (int, int)) -> Seq<char> {
    "    match "@ + two_decimals(hit.words@[m.0].t_start as int) + "–"@ + two_decimals(
        hit.words@[m.1 - 1].t_end as int,
    ) + "s"@
}

/// The lines of the first `n` occurrences of a hit, after its summary.
pub open spec fn hit_lines(hit: SearchHit, n: int) -> Seq<Seq<char>>
    decreases n,
{
    let m = range_views(hit.matches@);
    if n <= 0 {
        seq![
            Seq::empty(),
            hit_line(hit),
            "  "@ + bracketed(word_texts(hit.words@), m, hit.words@.len() as int),
        ]
    } else {
        hit_lines(hit, n - 1).push(match_line(hit, m[n - 1]))
    }
}

/// How many occurrences the first `n` hits have.
pub open spec fn match_count(hits: Seq<SearchHit>, n: int) -> nat
    decreases n,
{
    if n <= 0 {
        0
    } else {
        match_count(hits, n - 1) + hits[n - 1].matches@.len()
    }
}

/// How many matches and utterances a result has, in words.
pub open spec fn tally(hits: Seq<SearchHit>) -> Seq<char> {
    let count = match_count(hits, hits.len() as int);
    dec(count) + " match"@ + (if count == 1 {
        ""@
    } else {
        "es"@
    }) + " in "@ + dec(hits.len()) + " utterance"@ + (if hits.len() == 1 {
        ""@
    } else {
        "s"@
    })
}

/// The lines of the first `n` hits, after the headline.
pub open spec fn report_lines(
    hits: Seq<SearchHit>,
    normalized: Seq<char>,
    n: int,
) -> Seq<Seq<char>>
    decreases n,
{
    if n <= 0 {
        seq![tally(hits) + " for \""@ + normalized + "\""@]
    } else {
        report_lines(hits, normalized, n - 1) + hit_lines(
            hits[n - 1],
            hits[n - 1].matches@.len() as int,
        )
    }
}

/// What a search prints: one line where there are no hits, otherwise the
/// headline and every hit with its occurrences.
pub open spec fn report_of(hits: Seq<SearchHit>, normalized: Seq<char>) -> Seq<Seq<char>> {
    if hits.len() == 0 {
        seq!["no hits for \""@ + normalized + "\""@]
    } else {
        report_lines(hits, normalized, hits.len() as int)
    }
}

fn fmt_hit(hit: &SearchHit) -> (s: String)
    ensures
        s@ == hit_line(*hit),
{
    let mut s: String = "source ".to_owned();
    crate::text::push_signed(&mut s, hit.source.id.0);
    s.append("  ");
    s.append(fmt_two(hit.t_start as i128).as_str());
    s.append("–");
    s.append(fmt_two(hit.t_end as i128).as_str());
    s.append("s  ");
    match &hit.speaker {
        Some(name) => s.append(name.as_str()),
        None => s.append("(unknown speaker)"),
    }
    s.append("  conf ");
    s.append(fmt_confidence(&hit.confidence).as_str());
    s
}

proof fn lemma_match_count(hits: Seq<SearchHit>, n: int)
    requires
        0 <= n <= hits.len(),
    ensures
        match_count(hits, n) <= n * usize::MAX,
    decreases n,
{
    if n > 0 {
        lemma_match_count(hits, n - 1);
        assert(hits[n - 1].matches.len() <= usize::MAX);
    }
}

/// How many matches and utterances a result has, in words.
pub fn tally_text(hits: &Vec<SearchHit>) -> (head: String)
    ensures
        head@ == tally(hits@),
{
    let mut count: u128 = 0;
    let mut i: usize = 0;
    while i < hits.len()
        invariant
            i <= hits@.len(),
            count == match_count(hits@, i as int),
        decreases hits@.len() - i,
    {
        proof {
            lemma_match_count(hits@, i as int);
            assert(i <= usize::MAX - 1);
        }
        count = count + hits[i].matches.len() as u128;
        i = i + 1;
    }
    let mut head: String = String::new();
    push_dec(&mut head, count);
    assert(head@ =~= dec(count as nat));
    head.append(" match");
    if count != 1 {
        head.append("es");
    } else {
        head.append("");
    }
    head.append(" in ");
    push_dec(&mut head, hits.len() as u128);
    head.append(" utterance");
    if hits.len() != 1 {
        head.append("s");
    } else {
        head.append("");
    }
    head
}

/// The printed report of a search.
pub fn search_report(hits: &Vec<SearchHit>, normalized: &str) -> (out: Vec<String>)
    requires
        forall|i: int| #![trigger hits@[i]] 0 <= i < hits@.len() ==> hits@[i].wf(),
    ensures
        texts(out@) == report_of(hits@, normalized@),
{
    let mut out: Vec<String> = Vec::new();
    assert(texts(out@) =~= Seq::empty());
    if hits.len() == 0 {
        let mut s: String = "no hits for \"".to_owned();
        s.append(normalized);
        s.append("\"");
        crate::text::push_arg(&mut out, s.as_str());
        return out;
    }
    let mut head: String = tally_text(hits);
    head.append(" for \"");
    head.append(normalized);
    head.append("\"");
    crate::text::push_arg(&mut out, head.as_str());
    assert(texts(out@) =~= report_lines(hits@, normalized@, 0));
    let mut i: usize = 0;
    while i < hits.len()
        invariant
            i <= hits@.len(),
            forall|j: int| #![trigger hits@[j]] 0 <= j < hits@.len() ==> hits@[j].wf(),
            texts(out@) == report_lines(hits@, normalized@, i as int),
        decreases hits@.len() - i,
    {
        let hit: &SearchHit = &hits[i];
        let ghost before = texts(out@);
        let ghost m = range_views(hit.matches@);
        assert(hits@[i as int].wf());
        crate::text::push_arg(&mut out, "");
        proof {
            reveal_strlit("");
            assert(""@ =~= Seq::empty());
        }
        crate::text::push_arg(&mut out, fmt_hit(hit).as_str());
        let mut line: String = "  ".to_owned();
        line.append(highlighted(hit).as_str());
        crate::text::push_arg(&mut out, line.as_str());
        assert(texts(out@) =~= before + hit_lines(*hit, 0));
        let mut k: usize = 0;
        while k < hit.matches.len()
            invariant
                k <= hit.matches@.len(),
                hit.wf(),
                m == range_views(hit.matches@),
                texts(out@) == before + hit_lines(*hit, k as int),
            decreases hit.matches@.len() - k,
        {
            let ghost so_far = texts(out@);
            assert(hit.matches@[k as int].start < hit.matches@[k as int].end);
            let (start, end): (i64, i64) = hit.match_span(&hit.matches[k]);
            let mut line: String = "    match ".to_owned();
            line.append(fmt_two(start as i128).as_str());
            line.append("–");
            line.append(fmt_two(end as i128).as_str());
            line.append("s");
            assert(line@ == match_line(*hit, m[k as int]));
            crate::text::push_arg(&mut out, line.as_str());
            assert(texts(out@) =~= before + hit_lines(*hit, k + 1));
            k = k + 1;
        }
        i = i + 1;
    }
    out
}

/// What is told where there is no corpus yet.
pub fn no_corpus(path: &str) -> (s: String)
    ensures
        s@ == "no corpus at "@ + path@ + " — run `dipho ingest <url|file>` first"@,
{
    let mut s: String = "no corpus at ".to_owned();
    s.append(path);
    s.append(" — run `dipho ingest <url|file>` first");
    s
}

// ---------------------------------------------------------------------- laws

/// Whether `core` is what is left of a word without the apostrophes at its
/// edges.
pub open spec fn is_core(word: Seq<char>, core: Seq<char>) -> bool {
    exists|from: int, to: int|
        {
            &&& 0 <= from <= to <= word.len()
            &&& core == #[trigger] word.subrange(from, to)
            &&& forall|i: int| 0 <= i < from || to <= i < word.len() ==> #[trigger] word[i] == '\''
            &&& core.len() > 0 ==> core[0] != '\'' && core.last() != '\''
        }
}

proof fn lemma_unquote_front(s: Seq<char>) -> (from: int)
    ensures
        0 <= from <= s.len(),
        unquote_front(s) == s.skip(from),
        forall|i: int| 0 <= i < from ==> #[trigger] s[i] == '\'',
        from < s.len() ==> s[from] != '\'',
    decreases s.len(),
{
    if s.len() > 0 && s[0] == '\'' {
        let rest = s.drop_first();
        let n = lemma_unquote_front(rest);
        assert(rest.skip(n) =~= s.skip(n + 1));
        assert forall|i: int| 0 <= i < n + 1 implies #[trigger] s[i] == '\'' by {
            if i > 0 {
                assert(s[i] == rest[i - 1]);
            }
        }
        n + 1
    } else {
        assert(s.skip(0) =~= s);
        0
    }
}

proof fn lemma_unquote_back(s: Seq<char>) -> (to: int)
    ensures
        0 <= to <= s.len(),
        unquote_back(s) == s.take(to),
        forall|i: int| to <= i < s.len() ==> #[trigger] s[i] == '\'',
        to > 0 ==> s[to - 1] != '\'',
    decreases s.len(),
{
    if s.len() > 0 && s.last() == '\'' {
        let rest = s.drop_last();
        let n = lemma_unquote_back(rest);
        assert(rest.take(n) =~= s.take(n));
        assert forall|i: int| n <= i < s.len() implies #[trigger] s[i] == '\'' by {
            if i < rest.len() {
                assert(s[i] == rest[i]);
            }
        }
        n
    } else {
        assert(s.take(s.len() as int) =~= s);
        s.len() as int
    }
}

proof fn lemma_core(word: Seq<char>)
    ensures
        is_core(word, unquoted(word)),
{
    let from = lemma_unquote_front(word);
    let front = word.skip(from);
    let n = lemma_unquote_back(front);
    let to = from + n;
    assert(unquoted(word) =~= word.subrange(from, to));
    assert forall|i: int| 0 <= i < from || to <= i < word.len() implies #[trigger] word[i]
        == '\'' by {
        if i >= to {
            assert(word[i] == front[i - from]);
        }
    }
    let core = unquoted(word);
    if core.len() > 0 {
        assert(core[0] == word[from]);
        assert(core.last() == front[n - 1]);
    }
}

proof fn lemma_one_core(word: Seq<char>, a: Seq<char>, b: Seq<char>)
    requires
        is_core(word, a),
        is_core(word, b),
    ensures
        a == b,
{
    let (f, t) = choose|from: int, to: int|
        {
            &&& 0 <= from <= to <= word.len()
            &&& a == #[trigger] word.subrange(from, to)
            &&& forall|i: int| 0 <= i < from || to <= i < word.len() ==> #[trigger] word[i] == '\''
            &&& a.len() > 0 ==> a[0] != '\'' && a.last() != '\''
        };
    let (g, u) = choose|from: int, to: int|
        {
            &&& 0 <= from <= to <= word.len()
            &&& b == #[trigger] word.subrange(from, to)
            &&& forall|i: int| 0 <= i < from || to <= i < word.len() ==> #[trigger] word[i] == '\''
            &&& b.len() > 0 ==> b[0] != '\'' && b.last() != '\''
        };
    if a.len() > 0 && b.len() > 0 {
        assert(word[f] == a[0] && word[g] == b[0]);
        assert(word[t - 1] == a.last() && word[u - 1] == b.last());
        assert(f == g && t == u);
    } else if a.len() > 0 {
        assert(word[f] == a[0]);
        assert(f < g || f >= u);
    } else if b.len() > 0 {
        assert(word[g] == b[0]);
        assert(g < f || g >= t);
    } else {
        assert(a =~= b);
    }
}

/// Whether a word and a token are the same but for apostrophes at their edges.
pub open spec fn alike(word: Seq<char>, token: Seq<char>) -> bool {
    exists|core: Seq<char>| #[trigger] is_core(word, core) && is_core(token, core)
}

proof fn lemma_alike(word: Seq<char>, token: Seq<char>)
    ensures
        alike(word, token) <==> unquoted(token) == unquoted(word),
{
    lemma_core(word);
    lemma_core(token);
    if alike(word, token) {
        let core = choose|core: Seq<char>| #[trigger] is_core(word, core) && is_core(token, core);
        lemma_one_core(word, core, unquoted(word));
        lemma_one_core(token, core, unquoted(token));
    }
}

/// The matches of a phrase are exactly the ranges of words that are its tokens,
/// one for one, but for apostrophes at their edges.
pub proof fn law_matches_are_the_phrase_word_for_word(
    words: Seq<Seq<char>>,
    tokens: Seq<Seq<char>>,
    start: int,
    end: int,
)
    ensures
        matches_of(words, tokens).contains((start, end)) <==> {
            &&& 0 <= start <= end <= words.len()
            &&& end - start == tokens.len()
            &&& forall|k: int|
                #![trigger tokens[k]]
                0 <= k < tokens.len() ==> alike(words[start + k], tokens[k])
        },
{
    let n = words.len() as int + 1;
    let found = occurrences(words, tokens, n);
    let matches = matches_of(words, tokens);
    assert forall|k: int| #![trigger tokens[k]] 0 <= k < tokens.len() implies (alike(
        words[start + k],
        tokens[k],
    ) <==> unquoted(tokens[k]) == unquoted(words[start + k])) by {
        lemma_alike(words[start + k], tokens[k]);
    }
    if matches.contains((start, end)) {
        let k = choose|k: int| 0 <= k < matches.len() && matches[k] == (start, end);
        assert(found[k] == start);
        lemma_occurrences_occur(words, tokens, n, k);
    }
    if 0 <= start <= end <= words.len() && end - start == tokens.len() && (forall|k: int|
        #![trigger tokens[k]]
        0 <= k < tokens.len() ==> alike(words[start + k], tokens[k])) {
        assert(occurs_at(words, tokens, start));
        lemma_occurrence_listed(words, tokens, n, start);
        let k = choose|k: int| 0 <= k < found.len() && found[k] == start;
        assert(matches[k] == (start, end));
    }
}

proof fn lemma_occurrence_listed(words: Seq<Seq<char>>, tokens: Seq<Seq<char>>, n: int, i: int)
    requires
        0 <= i < n,
        occurs_at(words, tokens, i),
    ensures
        occurrences(words, tokens, n).contains(i),
    decreases n,
{
    let (before, out) = (occurrences(words, tokens, n - 1), occurrences(words, tokens, n));
    if i == n - 1 {
        assert(out[before.len() as int] == i);
    } else {
        lemma_occurrence_listed(words, tokens, n - 1, i);
        let k = choose|k: int| 0 <= k < before.len() && before[k] == i;
        assert(out[k] == i);
    }
}

/// Matches come in the order of their words, each once.
pub proof fn law_matches_ascend(words: Seq<Seq<char>>, tokens: Seq<Seq<char>>, j: int, k: int)
    requires
        0 <= j < k < matches_of(words, tokens).len(),
    ensures
        matches_of(words, tokens)[j].0 < matches_of(words, tokens)[k].0,
{
    lemma_occurrences_ascend(words, tokens, words.len() as int + 1, j, k);
}

proof fn lemma_occurrences_ascend(
    words: Seq<Seq<char>>,
    tokens: Seq<Seq<char>>,
    n: int,
    j: int,
    k: int,
)
    requires
        0 <= j < k < occurrences(words, tokens, n).len(),
    ensures
        occurrences(words, tokens, n)[j] < occurrences(words, tokens, n)[k] < n,
    decreases n,
{
    let before = occurrences(words, tokens, n - 1);
    if k < before.len() {
        lemma_occurrences_ascend(words, tokens, n - 1, j, k);
    } else {
        lemma_occurrences_below(words, tokens, n - 1, j);
    }
}

proof fn lemma_occurrences_below(words: Seq<Seq<char>>, tokens: Seq<Seq<char>>, n: int, j: int)
    requires
        0 <= j < occurrences(words, tokens, n).len(),
    ensures
        occurrences(words, tokens, n)[j] < n,
    decreases n,
{
    let before = occurrences(words, tokens, n - 1);
    if j < before.len() {
        lemma_occurrences_below(words, tokens, n - 1, j);
    }
}

/// Where no apostrophe stands in words and tokens, the words of a match are the
/// tokens, word for word.
pub proof fn law_plain_matches_are_the_tokens(
    words: Seq<Seq<char>>,
    tokens: Seq<Seq<char>>,
    start: int,
    end: int,
)
    requires
        forall|i: int, c: int|
            #![trigger words[i][c]]
            0 <= i < words.len() && 0 <= c < words[i].len() ==> words[i][c] != '\'',
        forall|i: int, c: int|
            #![trigger tokens[i][c]]
            0 <= i < tokens.len() && 0 <= c < tokens[i].len() ==> tokens[i][c] != '\'',
    ensures
        matches_of(words, tokens).contains((start, end)) <==> 0 <= start <= end <= words.len()
            && words.subrange(start, end) == tokens,
{
    law_matches_are_the_phrase_word_for_word(words, tokens, start, end);
    if 0 <= start <= end <= words.len() && end - start == tokens.len() {
        assert forall|k: int| #![trigger tokens[k]] 0 <= k < tokens.len() implies (alike(
            words[start + k],
            tokens[k],
        ) <==> words[start + k] == tokens[k]) by {
            let (w, t) = (words[start + k], tokens[k]);
            lemma_alike(w, t);
            assert(w.len() > 0 ==> words[start + k][0] != '\'' && words[start + k][w.len() - 1]
                != '\'');
            assert(t.len() > 0 ==> tokens[k][0] != '\'' && tokens[k][t.len() - 1] != '\'');
            assert(unquoted(w) == w);
            assert(unquoted(t) == t);
        }
        let cut = words.subrange(start, end);
        if forall|k: int|
            #![trigger tokens[k]]
            0 <= k < tokens.len() ==> alike(words[start + k], tokens[k]) {
            assert forall|k: int| 0 <= k < tokens.len() implies #[trigger] cut[k] == tokens[k] by {
                assert(tokens[k] == tokens[k]);
            }
            assert(cut =~= tokens);
        }
        if cut == tokens {
            assert forall|k: int| #![trigger tokens[k]] 0 <= k < tokens.len() implies alike(
                words[start + k],
                tokens[k],
            ) by {
                assert(cut[k] == words[start + k]);
            }
        }
    }
}

/// A report has its headline, three lines for each utterance, and one for each
/// match; it counts the matches and the utterances.
pub proof fn law_reports_have_a_line_per_match(hits: Seq<SearchHit>, normalized: Seq<char>)
    requires
        hits.len() > 0,
    ensures
        report_of(hits, normalized).len() == 1 + 3 * hits.len() + match_count(
            hits,
            hits.len() as int,
        ),
{
    lemma_report_len(hits, normalized, hits.len() as int);
}

proof fn lemma_report_len(hits: Seq<SearchHit>, normalized: Seq<char>, n: int)
    requires
        0 <= n <= hits.len(),
    ensures
        report_lines(hits, normalized, n).len() == 1 + 3 * n + match_count(hits, n),
    decreases n,
{
    if n > 0 {
        lemma_report_len(hits, normalized, n - 1);
        lemma_hit_lines_len(hits[n - 1], hits[n - 1].matches@.len() as int);
    }
}

proof fn lemma_hit_lines_len(hit: SearchHit, n: int)
    requires
        n >= 0,
    ensures
        hit_lines(hit, n).len() == 3 + n,
    decreases n,
{
    if n > 0 {
        lemma_hit_lines_len(hit, n - 1);
    }
}

/// A word as a report shows it: behind a bracket where a match begins with it, and
/// before one where a match ends with it.
pub open spec fn marked(words: Seq<Seq<char>>, matches: Seq<(int, int)>, i: int) -> Seq<char> {
    (if exists|k: int| #![trigger matches[k]] 0 <= k < matches.len() && matches[k].0 == i {
        "["@
    } else {
        Seq::empty()
    }) + words[i] + (if exists|k: int|
        #![trigger matches[k]]
        0 <= k < matches.len() && matches[k].1 == i + 1 {
        "]"@
    } else {
        Seq::empty()
    })
}

/// An utterance is shown word by word with blanks between, every match in brackets.
pub proof fn law_matches_are_shown_in_brackets(
    words: Seq<Seq<char>>,
    matches: Seq<(int, int)>,
    n: int,
)
    requires
        0 <= n <= words.len(),
        forall|i: int| #![trigger words[i]] 0 <= i < words.len() ==> words[i].len() > 0,
    ensures
        bracketed(words, matches, n) == joined(
            Seq::new(n as nat, |i: int| marked(words, matches, i)),
            " "@,
        ),
        n > 0 ==> bracketed(words, matches, n).len() > 0,
    decreases n,
{
    reveal_strlit("[");
    reveal_strlit("]");
    reveal_strlit(" ");
    let all = Seq::new(n as nat, |i: int| marked(words, matches, i));
    if n == 0 {
        crate::text::law_joined_parts(Seq::empty(), Seq::empty(), " "@);
        assert(all =~= Seq::empty());
    } else {
        law_matches_are_shown_in_brackets(words, matches, n - 1);
        let head = Seq::new((n - 1) as nat, |i: int| marked(words, matches, i));
        let w = marked(words, matches, n - 1);
        assert(all =~= head.push(w));
        crate::text::law_joined_parts(head, w, " "@);
        assert(words[n - 1].len() > 0);
        if n == 1 {
            assert(head =~= Seq::empty());
            assert(all =~= seq![w]);
        }
        assert(bracketed(words, matches, n) =~= joined(all, " "@));
    }
}

/// The lines of a hit: an empty one, its summary, its words, and for each match where
/// it begins and ends, by its own words.
pub proof fn law_hits_tell_their_matches(hit: SearchHit, n: int, k: int)
    requires
        0 <= k < n <= hit.matches@.len(),
    ensures
        ({
            let lines = hit_lines(hit, n);
            let m = hit.matches@[k];
            &&& lines[0].len() == 0
            &&& lines[1] == hit_line(hit)
            &&& lines[2] == "  "@ + bracketed(
                word_texts(hit.words@),
                range_views(hit.matches@),
                hit.words@.len() as int,
            )
            &&& lines[3 + k] == "    match "@ + two_decimals(
                hit.words@[m.start as int].t_start as int,
            ) + "–"@ + two_decimals(hit.words@[m.end - 1].t_end as int) + "s"@
        }),
    decreases n,
{
    lemma_hit_lines_len(hit, n - 1);
    if k < n - 1 {
        law_hits_tell_their_matches(hit, n - 1, k);
    } else {
        lemma_hit_head(hit, n - 1);
    }
}

proof fn lemma_hit_head(hit: SearchHit, n: int)
    requires
        0 <= n,
    ensures
        hit_lines(hit, n)[0].len() == 0,
        hit_lines(hit, n)[1] == hit_line(hit),
        hit_lines(hit, n)[2] == "  "@ + bracketed(
            word_texts(hit.words@),
            range_views(hit.matches@),
            hit.words@.len() as int,
        ),
    decreases n,
{
    if n > 0 {
        lemma_hit_head(hit, n - 1);
        lemma_hit_lines_len(hit, n - 1);
    }
}

/// A tally counts matches and utterances, each in the singular iff it is one.
pub proof fn law_tallies_count_matches_and_utterances(hits: Seq<SearchHit>)
    ensures
        ({
            let n = match_count(hits, hits.len() as int);
            let m = hits.len();
            &&& n == 1 && m == 1 ==> tally(hits) == dec(1) + " match in "@ + dec(1) + " utterance"@
            &&& n != 1 && m == 1 ==> tally(hits) == dec(n) + " matches in "@ + dec(1)
                + " utterance"@
            &&& n != 1 && m != 1 ==> tally(hits) == dec(n) + " matches in "@ + dec(m)
                + " utterances"@
        }),
        hits.len() == 0 ==> match_count(hits, hits.len() as int) == 0,
{
    reveal_strlit(" match in ");
    reveal_strlit(" matches in ");
    reveal_strlit(" match");
    reveal_strlit("es");
    reveal_strlit("s");
    reveal_strlit("");
    reveal_strlit(" in ");
    reveal_strlit(" utterance");
    reveal_strlit(" utterances");
    let n = match_count(hits, hits.len() as int);
    let m = hits.len();
    assert(" match in "@ =~= " match"@ + ""@ + " in "@);
    assert(" matches in "@ =~= " match"@ + "es"@ + " in "@);
    assert(" utterance"@ =~= " utterance"@ + ""@);
    assert(" utterances"@ =~= " utterance"@ + "s"@);
    if n == 1 && m == 1 {
        assert(tally(hits) =~= dec(1) + " match in "@ + dec(1) + " utterance"@);
    } else if m == 1 {
        assert(tally(hits) =~= dec(n) + " matches in "@ + dec(1) + " utterance"@);
    } else if n != 1 {
        assert(tally(hits) =~= dec(n) + " matches in "@ + dec(m) + " utterances"@);
    }
}

/// The phrase query is the tokens, with blanks between, in quotes.
pub proof fn law_phrases_are_quoted(tokens: Seq<Seq<char>>)
    ensures
        ({
            let q = phrase_query(tokens);
            &&& q.len() >= 2
            &&& q[0] == '"' && q.last() == '"'
            &&& q.subrange(1, q.len() - 1) == joined(tokens, " "@)
        }),
{
    reveal_strlit("\"");
    let q = phrase_query(tokens);
    assert(q.subrange(1, q.len() - 1) =~= joined(tokens, " "@));
}

/// A hit is summed up by its source, where its utterance begins and ends, who speaks
/// and how sure that is, in this order.
pub proof fn law_hits_are_summed_up(hit: SearchHit)
    ensures
        ({
            let head = "source "@ + signed_dec(hit.source.id.0 as int) + "  "@ + two_decimals(
                hit.t_start as int,
            ) + "–"@ + two_decimals(hit.t_end as int) + "s  "@;
            let tail = "  conf "@ + confidence_text(hit.confidence);
            &&& hit.speaker matches Some(name) ==> hit_line(hit) == head + name@ + tail
            &&& hit.speaker is None ==> hit_line(hit) == head + "(unknown speaker)"@ + tail
        }),
        confidence_text(None) == "—"@,
        forall|n: i64| #[trigger] confidence_text(Some(Real::Nano(n))) == two_decimals(n as int),
{
    let head = "source "@ + signed_dec(hit.source.id.0 as int) + "  "@ + two_decimals(
        hit.t_start as int,
    ) + "–"@ + two_decimals(hit.t_end as int) + "s  "@;
    let tail = "  conf "@ + confidence_text(hit.confidence);
    match hit.speaker {
        Some(name) => {
            assert(hit_line(hit) =~= head + name@ + tail);
        },
        None => {
            assert(hit_line(hit) =~= head + "(unknown speaker)"@ + tail);
        },
    }
}

} // verus!
