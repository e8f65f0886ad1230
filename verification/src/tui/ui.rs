//! What the screen shows: the search results (speaker and confidence columns,
//! each hit highlighted inside its utterance), the edit pane (clip list with
//! output times), and the status line. Pure functions of the state; painting
//! is left to the terminal.
use super::app::Pane;
use super::edit::EditSession;
use super::player::{PlayerUpdate, UpdateView};
use crate::corpus::search::{
    confidence_text, fmt_confidence, range_views, tally, tally_text, word_texts, SearchHit,
};
use crate::edl::compile::PreviewPlan;
use crate::edl::{opt_text, Clip, ClipView, Transform};
use crate::number::{
    difference, fmt_three, fmt_two, real_text, three_decimals, two_decimals, Real,
};
use crate::text::{
    chars_of, dec, join, joined, push_arg, push_dec, push_signed, signed_dec, texts, trim,
    trimmed_text,
};
use core::ops::Range;
use vstd::prelude::*;
use vstd::string::StringExecFns;

verus! {

/// How a piece of text is painted.
#[derive(Debug, Clone, Copy, PartialEq, Eq, Structural)]
pub enum Look {
    Plain,
    Yellow,
    DarkGray,
    Green,
    Red,
    /// A matched token: yellow and bold.
    Match,
}

/// A piece of text with its look.
#[derive(Debug)]
pub struct Styled {
    pub text: String,
    pub look: Look,
}

/// A piece of text with its look, as a value.
pub struct StyledView {
    pub text: Seq<char>,
    pub look: Look,
}

impl View for Styled {
    type V = StyledView;

    open spec fn view(&self) -> StyledView {
        StyledView { text: self.text@, look: self.look }
    }
}

/// Pieces as values.
pub open spec fn styled_views(v: Seq<Styled>) -> Seq<StyledView> {
    Seq::new(v.len(), |i: int| v[i]@)
}

fn styled(text: &str, look: Look) -> (s: Styled)
    ensures
        s@ == (StyledView { text: text@, look }),
{
    Styled { text: text.to_owned(), look }
}

fn push_styled(v: &mut Vec<Styled>, s: Styled)
    ensures
        styled_views(final(v)@) == styled_views(old(v)@).push(s@),
{
    let ghost before = styled_views(v@);
    let ghost added = s@;
    v.push(s);
    assert(styled_views(v@) =~= before.push(added));
}

// ------------------------------------------------------------------ formatting

/// `n` spaces.
pub open spec fn blanks(n: int) -> Seq<char>
    decreases n,
{
    if n <= 0 {
        Seq::empty()
    } else {
        blanks(n - 1).push(' ')
    }
}

/// A text right-aligned in a field of `width` characters.
pub open spec fn right_aligned(s: Seq<char>, width: int) -> Seq<char> {
    blanks(width - s.len()) + s
}

/// A text left-aligned in a field of `width` characters.
pub open spec fn left_aligned(s: Seq<char>, width: int) -> Seq<char> {
    s + blanks(width - s.len())
}

fn push_blanks(out: &mut String, n: usize)
    ensures
        final(out)@ == old(out)@ + blanks(n as int),
    decreases n,
{
    if n > 0 {
        push_blanks(out, n - 1);
        out.push(' ');
        assert(out@ =~= old(out)@ + blanks(n as int));
    } else {
        assert(out@ =~= old(out)@ + blanks(0));
    }
}

/// A text right-aligned in a field of `width` characters.
pub fn align_right(s: &str, width: usize) -> (r: String)
    ensures
        r@ == right_aligned(s@, width as int),
{
    let n: usize = chars_of(s).len();
    let mut r: String = String::new();
    if n < width {
        push_blanks(&mut r, width - n);
    }
    assert(r@ =~= blanks(width - s@.len()));
    r.append(s);
    r
}

/// A text left-aligned in a field of `width` characters.
pub fn align_left(s: &str, width: usize) -> (r: String)
    ensures
        r@ == left_aligned(s@, width as int),
{
    let n: usize = chars_of(s).len();
    let mut r: String = s.to_owned();
    if n < width {
        push_blanks(&mut r, width - n);
    }
    assert(r@ =~= left_aligned(s@, width as int));
    r
}

/// A quantity with three decimals.
pub open spec fn milli_text(r: Real) -> Seq<char> {
    match r {
        Real::Nano(n) => three_decimals(n as int),
        _ => real_text(r),
    }
}

fn fmt_milli(r: Real) -> (s: String)
    ensures
        s@ == milli_text(r),
{
    match r {
        Real::Nano(n) => fmt_three(n as i128),
        _ => r.text(),
    }
}

/// An output or source time in its column: two decimals, right-aligned.
pub open spec fn time_cell(t: int) -> Seq<char> {
    right_aligned(two_decimals(t), 8) + "s"@
}

fn fmt_time_cell(t: i128) -> (s: String)
    ensures
        s@ == time_cell(t as int),
{
    let mut s: String = align_right(fmt_two(t).as_str(), 8);
    s.append("s");
    s
}

// --------------------------------------------------------------------- results

/// Whether a word belongs to an occurrence.
pub open spec fn in_match(matches: Seq<(int, int)>, i: int) -> bool {
    exists|k: int| #![trigger matches[k]] 0 <= k < matches.len() && matches[k].0 <= i < matches[k].1
}

/// The first `n` words of an utterance as one line, spaces between them, every
/// matched token highlighted.
pub open spec fn highlighted_words(
    words: Seq<Seq<char>>,
    matches: Seq<(int, int)>,
    n: int,
) -> Seq<StyledView>
    decreases n,
{
    if n <= 0 {
        Seq::empty()
    } else {
        let before = highlighted_words(words, matches, n - 1);
        let spaced = if n > 1 {
            before.push(StyledView { text: " "@, look: Look::Plain })
        } else {
            before
        };
        spaced.push(
            StyledView {
                text: words[n - 1],
                look: if in_match(matches, n - 1) {
                    Look::Match
                } else {
                    Look::Plain
                },
            },
        )
    }
}

fn is_in_match(matches: &Vec<Range<usize>>, i: usize) -> (b: bool)
    ensures
        b == in_match(range_views(matches@), i as int),
{
    let ghost v = range_views(matches@);
    let mut k: usize = 0;
    while k < matches.len()
        invariant
            k <= matches@.len(),
            v == range_views(matches@),
            forall|j: int| #![trigger v[j]] 0 <= j < k ==> !(v[j].0 <= i < v[j].1),
        decreases matches@.len() - k,
    {
        assert(v[k as int] == (matches@[k as int].start as int, matches@[k as int].end as int));
        if matches[k].start <= i && i < matches[k].end {
            return true;
        }
        k = k + 1;
    }
    false
}

/// The utterance's normalized token stream as one line, every matched token
/// highlighted.
pub fn highlighted_line(hit: &SearchHit) -> (out: Vec<Styled>)
    ensures
        styled_views(out@) == highlighted_words(
            word_texts(hit.words@),
            range_views(hit.matches@),
            hit.words@.len() as int,
        ),
{
    let ghost (w, m) = (word_texts(hit.words@), range_views(hit.matches@));
    let mut out: Vec<Styled> = Vec::new();
    let mut i: usize = 0;
    assert(styled_views(out@) =~= highlighted_words(w, m, 0));
    while i < hit.words.len()
        invariant
            i <= hit.words@.len(),
            w == word_texts(hit.words@),
            m == range_views(hit.matches@),
            styled_views(out@) == highlighted_words(w, m, i as int),
        decreases hit.words@.len() - i,
    {
        assert(w[i as int] == hit.words@[i as int].text@);
        if i > 0 {
            push_styled(&mut out, styled(" ", Look::Plain));
        }
        let look: Look = if is_in_match(&hit.matches, i) {
            Look::Match
        } else {
            Look::Plain
        };
        push_styled(&mut out, styled(hit.words[i].text.as_str(), look));
        i = i + 1;
    }
    out
}

/// The title of the results pane: what was found, where there is a query.
pub open spec fn results_title_of(query: Seq<char>, hits: Seq<SearchHit>) -> Seq<char> {
    if trimmed_text(query).len() == 0 {
        "Results"@
    } else {
        "Results — "@ + tally(hits)
    }
}

/// The title of the results pane.
pub fn results_title(query: &str, hits: &Vec<SearchHit>) -> (s: String)
    ensures
        s@ == results_title_of(query@, hits@),
{
    if trim(&chars_of(query)).len() == 0 {
        return "Results".to_owned();
    }
    let mut s: String = "Results — ".to_owned();
    s.append(tally_text(hits).as_str());
    s
}

/// The cells of a hit before its utterance: source, time, speaker (with a plus
/// where another one overlaps), confidence.
pub open spec fn hit_cells_of(hit: SearchHit) -> Seq<Seq<char>> {
    seq![
        signed_dec(hit.source.id.0 as int),
        time_cell(hit.t_start as int),
        match hit.speaker {
            Some(name) => if hit.multi_speaker {
                name@ + "+"@
            } else {
                name@
            },
            None => "—"@,
        },
        confidence_text(hit.confidence),
    ]
}

/// The cells of a hit before its utterance.
pub fn hit_cells(hit: &SearchHit) -> (cells: Vec<String>)
    ensures
        texts(cells@) == hit_cells_of(*hit),
{
    let mut cells: Vec<String> = Vec::new();
    let mut source: String = String::new();
    push_signed(&mut source, hit.source.id.0);
    assert(source@ =~= signed_dec(hit.source.id.0 as int));
    push_arg(&mut cells, source.as_str());
    push_arg(&mut cells, fmt_time_cell(hit.t_start as i128).as_str());
    let speaker: String = match &hit.speaker {
        Some(name) => {
            let mut s: String = name.as_str().to_owned();
            if hit.multi_speaker {
                s.append("+");
            }
            s
        },
        None => "—".to_owned(),
    };
    push_arg(&mut cells, speaker.as_str());
    push_arg(&mut cells, fmt_confidence(&hit.confidence).as_str());
    assert(texts(cells@) =~= hit_cells_of(*hit));
    cells
}

// ------------------------------------------------------------------- edit pane

/// The badge of a transform.
pub open spec fn badge_of(t: Transform) -> Seq<char> {
    match t {
        Transform::Loop { count } => "⟳"@ + dec(count as nat),
        Transform::Stutter { .. } => "st"@,
        Transform::Pitch { .. } => "♯"@,
        Transform::Speed { .. } => "spd"@,
        Transform::Reverse => "rev"@,
    }
}

/// The badges of transforms.
pub open spec fn badges_of(ts: Seq<Transform>) -> Seq<char> {
    joined(ts.map_values(|t: Transform| badge_of(t)), ","@)
}

fn badge(t: &Transform) -> (s: String)
    ensures
        s@ == badge_of(*t),
{
    match t {
        Transform::Loop { count } => {
            let mut s: String = "⟳".to_owned();
            push_dec(&mut s, *count as u128);
            s
        },
        Transform::Stutter { .. } => "st".to_owned(),
        Transform::Pitch { .. } => "♯".to_owned(),
        Transform::Speed { .. } => "spd".to_owned(),
        Transform::Reverse => "rev".to_owned(),
    }
}

/// Compact transform badges. Loop and stutter preview natively; the rest are
/// render-only, so a badge is the cue that the preview plays them plain.
pub fn badges(transforms: &Vec<Transform>) -> (s: String)
    ensures
        s@ == badges_of(transforms@),
{
    let ghost all = transforms@.map_values(|t: Transform| badge_of(t));
    let mut parts: Vec<String> = Vec::new();
    let mut i: usize = 0;
    assert(texts(parts@) =~= all.take(0));
    while i < transforms.len()
        invariant
            i <= transforms@.len(),
            all == transforms@.map_values(|t: Transform| badge_of(t)),
            texts(parts@) == all.take(i as int),
        decreases transforms@.len() - i,
    {
        push_arg(&mut parts, badge(&transforms[i]).as_str());
        assert(all.take(i + 1) =~= all.take(i as int).push(all[i as int]));
        i = i + 1;
    }
    assert(all.take(i as int) =~= all);
    join(&parts, ",")
}

/// The title of the edit pane: file, unsaved mark, clip count, output length.
pub open spec fn edit_title_of(
    path: Seq<char>,
    dirty: bool,
    clips: nat,
    length: Option<int>,
) -> Seq<char> {
    "Edit — "@ + path + (if dirty {
        " *"@
    } else {
        ""@
    }) + " — "@ + dec(clips) + " clip"@ + (if clips == 1 {
        ""@
    } else {
        "s"@
    }) + (match length {
        Some(t) => "  "@ + two_decimals(t) + "s"@,
        None => ""@,
    })
}

/// The output length of an optional plan.
pub open spec fn plan_length(plan: Option<PreviewPlan>) -> Option<int> {
    match plan {
        Some(p) => Some(p.total_duration as int),
        None => None,
    }
}

/// Where an optional plan puts a clip.
pub open spec fn plan_start(plan: Option<PreviewPlan>, i: int) -> Option<int> {
    match plan {
        Some(p) => if 0 <= i < p.clip_output@.len() {
            Some(p.clip_output@[i].0 as int)
        } else {
            None
        },
        None => None,
    }
}

/// The title of the edit pane.
pub fn edit_title(edit: &EditSession, plan: &Option<PreviewPlan>) -> (s: String)
    ensures
        s@ == edit_title_of(edit@.path, edit@.dirty, edit@.clips.len(), plan_length(*plan)),
{
    let clips: usize = edit.clips().len();
    assert(clips == edit@.clips.len());
    let mut s: String = "Edit — ".to_owned();
    s.append(edit.path());
    s.append(
        if edit.dirty() {
            " *"
        } else {
            ""
        },
    );
    s.append(" — ");
    push_dec(&mut s, clips as u128);
    s.append(" clip");
    s.append(
        if clips == 1 {
            ""
        } else {
            "s"
        },
    );
    let length: String = match plan {
        Some(p) => {
            let mut l: String = "  ".to_owned();
            l.append(fmt_two(p.total_duration).as_str());
            l.append("s");
            l
        },
        None => "".to_owned(),
    };
    s.append(length.as_str());
    s
}

/// The cells of a clip: number, output time, source, span, duration, badges,
/// label.
pub open spec fn clip_cells_of(i: nat, clip: ClipView, start: Option<int>) -> Seq<Seq<char>> {
    seq![
        right_aligned(dec(i), 3),
        match start {
            Some(t) => time_cell(t),
            None => "       —"@,
        },
        signed_dec(clip.span.source.0 as int),
        milli_text(clip.span.t_start) + "–"@ + milli_text(clip.span.t_end),
        right_aligned(milli_text(difference(clip.span.t_end, clip.span.t_start)), 6) + "s"@,
        badges_of(clip.transforms),
        match clip.label {
            Some(label) => label,
            None => ""@,
        },
    ]
}

/// The cells of a clip.
pub fn clip_cells(i: usize, clip: &Clip, start: Option<i128>) -> (cells: Vec<String>)
    ensures
        texts(cells@) == clip_cells_of(
            i as nat,
            clip@,
            match start {
                Some(t) => Some(t as int),
                None => None,
            },
        ),
{
    let mut cells: Vec<String> = Vec::new();
    let mut number: String = String::new();
    push_dec(&mut number, i as u128);
    assert(number@ =~= dec(i as nat));
    push_arg(&mut cells, align_right(number.as_str(), 3).as_str());
    let out: String = match start {
        Some(t) => fmt_time_cell(t),
        None => "       —".to_owned(),
    };
    push_arg(&mut cells, out.as_str());
    let mut source: String = String::new();
    push_signed(&mut source, clip.span.source.0);
    assert(source@ =~= signed_dec(clip.span.source.0 as int));
    push_arg(&mut cells, source.as_str());
    let mut span: String = fmt_milli(clip.span.t_start);
    span.append("–");
    span.append(fmt_milli(clip.span.t_end).as_str());
    push_arg(&mut cells, span.as_str());
    let mut length: String = align_right(fmt_milli(clip.span.duration()).as_str(), 6);
    length.append("s");
    push_arg(&mut cells, length.as_str());
    push_arg(&mut cells, badges(&clip.transforms).as_str());
    match &clip.label {
        Some(label) => push_arg(&mut cells, label.as_str()),
        None => push_arg(&mut cells, ""),
    }
    assert(texts(cells@) =~= clip_cells_of(
        i as nat,
        clip@,
        match start {
            Some(t) => Some(t as int),
            None => None,
        },
    ));
    cells
}

/// The rows of the edit pane.
pub fn clip_rows(edit: &EditSession, plan: &Option<PreviewPlan>) -> (rows: Vec<Vec<String>>)
    ensures
        rows@.len() == edit@.clips.len(),
        forall|i: int|
            #![trigger rows@[i]]
            0 <= i < rows@.len() ==> texts(rows@[i]@) == clip_cells_of(
                i as nat,
                edit@.clips[i],
                plan_start(*plan, i),
            ),
{
    let clips: &Vec<Clip> = edit.clips();
    let ghost views = edit@.clips;
    let mut rows: Vec<Vec<String>> = Vec::new();
    let mut i: usize = 0;
    while i < clips.len()
        invariant
            i <= clips@.len(),
            views == crate::edl::clip_views(clips@),
            rows@.len() == i,
            forall|k: int|
                #![trigger rows@[k]]
                0 <= k < rows@.len() ==> texts(rows@[k]@) == clip_cells_of(
                    k as nat,
                    views[k],
                    plan_start(*plan, k),
                ),
        decreases clips@.len() - i,
    {
        let start: Option<i128> = match plan {
            Some(p) => if i < p.clip_output.len() {
                Some(p.clip_output[i].0)
            } else {
                None
            },
            None => None,
        };
        assert(views[i as int] == clips@[i as int]@);
        rows.push(clip_cells(i, &clips[i], start));
        i = i + 1;
    }
    rows
}

// ----------------------------------------------------------------- status line

/// The player's corner of the status line.
pub open spec fn player_text_of(state: Option<UpdateView>) -> StyledView {
    match state {
        None => StyledView { text: "mpv: starting…"@, look: Look::DarkGray },
        Some(UpdateView::Ready { version }) => StyledView { text: version, look: Look::DarkGray },
        Some(UpdateView::Playing { label, looped, seek_ms }) => StyledView {
            text: "▶ "@ + label + (if looped {
                " ⟳"@
            } else {
                ""@
            }) + (match seek_ms {
                Some(ms) => "  seek "@ + dec(ms as nat) + " ms"@,
                None => ""@,
            }),
            look: Look::Green,
        },
        Some(UpdateView::Done) => StyledView { text: "■ done"@, look: Look::Plain },
        Some(UpdateView::Stopped) => StyledView { text: "■ stopped"@, look: Look::Plain },
        Some(UpdateView::Failed(e)) => StyledView { text: "mpv: "@ + e, look: Look::Red },
    }
}

/// The player's corner of the status line.
pub fn player_text(state: &Option<PlayerUpdate>) -> (s: Styled)
    ensures
        s@ == player_text_of(super::app::update_view(*state)),
{
    match state {
        None => styled("mpv: starting…", Look::DarkGray),
        Some(PlayerUpdate::Ready { version }) => styled(version.as_str(), Look::DarkGray),
        Some(PlayerUpdate::Playing { label, looped, seek_ms }) => {
            let mut text: String = "▶ ".to_owned();
            text.append(label.as_str());
            text.append(
                if *looped {
                    " ⟳"
                } else {
                    ""
                },
            );
            let seek: String = match seek_ms {
                Some(ms) => {
                    let mut t: String = "  seek ".to_owned();
                    push_dec(&mut t, *ms as u128);
                    t.append(" ms");
                    t
                },
                None => "".to_owned(),
            };
            text.append(seek.as_str());
            Styled { text, look: Look::Green }
        },
        Some(PlayerUpdate::Done) => styled("■ done", Look::Plain),
        Some(PlayerUpdate::Stopped) => styled("■ stopped", Look::Plain),
        Some(PlayerUpdate::Failed(e)) => {
            let mut text: String = "mpv: ".to_owned();
            text.append(e.as_str());
            Styled { text, look: Look::Red }
        },
    }
}

/// The key hints of a pane.
pub open spec fn hints_of(focus: Pane) -> Seq<char> {
    match focus {
        Pane::Search =>
            "   Enter loop  ^T context  ^U utterance  ^A add clip  ^P stop  Tab edit  Esc quit"@,
        Pane::Edit =>
            "   Space play  Enter from clip  ,.<> start  []{} end  J/K move  d del  u/U undo  s save  Tab search"@,
    }
}

/// The status line: a note, else that a search is under way, else the corpus;
/// then the player, then the key hints.
pub open spec fn status_of(
    note: Option<Seq<char>>,
    searching: bool,
    corpus_db: Seq<char>,
    player: Option<UpdateView>,
    focus: Pane,
) -> Seq<StyledView> {
    let gap = StyledView { text: "   "@, look: Look::Plain };
    let head = match note {
        Some(text) => seq![StyledView { text, look: Look::Yellow }, gap],
        None => if searching {
            seq![StyledView { text: "searching…"@, look: Look::Yellow }, gap]
        } else {
            seq![StyledView { text: "corpus: "@ + corpus_db + "   "@, look: Look::Plain }]
        },
    };
    head.push(player_text_of(player)).push(
        StyledView { text: hints_of(focus), look: Look::DarkGray },
    )
}

/// The status line.
pub fn status_line(
    note: &Option<String>,
    searching: bool,
    corpus_db: &str,
    player: &Option<PlayerUpdate>,
    focus: Pane,
) -> (out: Vec<Styled>)
    ensures
        styled_views(out@) == status_of(
            opt_text(*note),
            searching,
            corpus_db@,
            super::app::update_view(*player),
            focus,
        ),
{
    let mut out: Vec<Styled> = Vec::new();
    assert(styled_views(out@) =~= Seq::empty());
    match note {
        Some(text) => {
            push_styled(&mut out, styled(text.as_str(), Look::Yellow));
            push_styled(&mut out, styled("   ", Look::Plain));
        },
        None => {
            if searching {
                push_styled(&mut out, styled("searching…", Look::Yellow));
                push_styled(&mut out, styled("   ", Look::Plain));
            } else {
                let mut text: String = "corpus: ".to_owned();
                text.append(corpus_db);
                text.append("   ");
                push_styled(&mut out, styled(text.as_str(), Look::Plain));
            }
        },
    }
    push_styled(&mut out, player_text(player));
    let hints: &str = match focus {
        Pane::Search => {
            "   Enter loop  ^T context  ^U utterance  ^A add clip  ^P stop  Tab edit  Esc quit"
        },
        Pane::Edit => {
            "   Space play  Enter from clip  ,.<> start  []{} end  J/K move  d del  u/U undo  s save  Tab search"
        },
    };
    push_styled(&mut out, styled(hints, Look::DarkGray));
    assert(styled_views(out@) =~= status_of(
        opt_text(*note),
        searching,
        corpus_db@,
        super::app::update_view(*player),
        focus,
    ));
    out
}

// ---------------------------------------------------------------------- laws

/// Aligned texts are as wide as asked for, or as long as they are, and stand at the
/// end or at the beginning, with blanks for the rest.
pub proof fn law_aligned_texts_fill_their_field(s: Seq<char>, width: int)
    requires
        0 <= width,
    ensures
        ({
            let (r, l) = (right_aligned(s, width), left_aligned(s, width));
            let len = if s.len() < width {
                width
            } else {
                s.len() as int
            };
            &&& r.len() == len && l.len() == len
            &&& r.skip(len - s.len()) == s
            &&& l.take(s.len() as int) == s
            &&& forall|i: int| #![trigger r[i]] 0 <= i < len - s.len() ==> r[i] == ' '
            &&& forall|i: int| #![trigger l[i]] s.len() <= i < len ==> l[i] == ' '
        }),
{
    lemma_blanks(width - s.len());
    let (r, l) = (right_aligned(s, width), left_aligned(s, width));
    let n = blanks(width - s.len()).len() as int;
    assert(r.skip(n) =~= s);
    assert(l.take(s.len() as int) =~= s);
    assert forall|i: int| #![trigger l[i]] s.len() <= i < l.len() implies l[i] == ' ' by {
        assert(l[i] == blanks(width - s.len())[i - s.len()]);
    }
}

proof fn lemma_blanks(n: int)
    ensures
        blanks(n).len() == if n > 0 {
            n
        } else {
            0
        },
        forall|i: int| #![trigger blanks(n)[i]] 0 <= i < n ==> blanks(n)[i] == ' ',
    decreases n,
{
    if n > 0 {
        lemma_blanks(n - 1);
    }
}

/// Every word of an utterance is shown, a blank between each two, and is highlighted
/// iff it belongs to a match.
pub proof fn law_matched_words_are_highlighted(
    words: Seq<Seq<char>>,
    matches: Seq<(int, int)>,
    n: int,
    i: int,
)
    requires
        0 <= i < n <= words.len(),
    ensures
        ({
            let line = highlighted_words(words, matches, n);
            let hit = exists|k: int|
                #![trigger matches[k]]
                0 <= k < matches.len() && matches[k].0 <= i < matches[k].1;
            &&& line.len() == 2 * n - 1
            &&& line[2 * i].text == words[i]
            &&& line[2 * i].look == if hit {
                Look::Match
            } else {
                Look::Plain
            }
            &&& i > 0 ==> line[2 * i - 1] == (StyledView { text: " "@, look: Look::Plain })
        }),
    decreases n,
{
    if n > 1 {
        law_matched_words_are_highlighted(
            words,
            matches,
            n - 1,
            if i < n - 1 {
                i
            } else {
                0
            },
        );
    } else {
        assert(highlighted_words(words, matches, 0) =~= Seq::empty());
    }
}

/// A clip's cells tell its number, where it begins in the output, its source, its
/// span, its length, its transforms and its label, in this order.
pub proof fn law_clips_are_told_by_their_span(i: nat, clip: ClipView, t: int, from: i64, to: i64)
    requires
        clip.span.t_start == Real::Nano(from),
        clip.span.t_end == Real::Nano(to),
        i64::MIN <= to - from <= i64::MAX,
    ensures
        ({
            let cells = clip_cells_of(i, clip, Some(t));
            &&& cells.len() == 7
            &&& cells[0] == right_aligned(dec(i), 3)
            &&& cells[1] == right_aligned(two_decimals(t), 8) + "s"@
            &&& cells[2] == signed_dec(clip.span.source.0 as int)
            &&& cells[3] == three_decimals(from as int) + "–"@ + three_decimals(to as int)
            &&& cells[4] == right_aligned(three_decimals(to - from), 6) + "s"@
            &&& cells[5] == badges_of(clip.transforms)
            &&& clip.label matches Some(label) ==> cells[6] == label
        }),
{
}

/// A hit's cells tell its source, where its utterance begins, its speaker, with a
/// plus where another one is heard, and its confidence.
pub proof fn law_hits_are_told_by_their_utterance(hit: SearchHit)
    ensures
        ({
            let cells = hit_cells_of(hit);
            &&& cells.len() == 4
            &&& cells[0] == signed_dec(hit.source.id.0 as int)
            &&& cells[1] == right_aligned(two_decimals(hit.t_start as int), 8) + "s"@
            &&& hit.speaker is Some && !hit.multi_speaker ==> cells[2] == hit.speaker->0@
            &&& hit.speaker is Some && hit.multi_speaker ==> cells[2] == hit.speaker->0@ + "+"@
            &&& cells[3] == confidence_text(hit.confidence)
        }),
{
}

/// The edit's title marks unsaved work and counts its clips, in the singular iff it is
/// one.
pub proof fn law_titles_mark_unsaved_work(path: Seq<char>, n: nat)
    requires
        n != 1,
    ensures
        edit_title_of(path, false, n, None) == "Edit — "@ + path + " — "@ + dec(n) + " clips"@,
        edit_title_of(path, true, n, None) == "Edit — "@ + path + " * — "@ + dec(n) + " clips"@,
        edit_title_of(path, false, 1, None) == "Edit — "@ + path + " — "@ + dec(1) + " clip"@,
{
    reveal_strlit("");
    reveal_strlit(" *");
    reveal_strlit(" — ");
    reveal_strlit(" * — ");
    reveal_strlit(" clip");
    reveal_strlit("s");
    reveal_strlit(" clips");
    assert(" clips"@ =~= " clip"@ + "s"@);
    assert(" * — "@ =~= " *"@ + " — "@);
    assert(edit_title_of(path, false, n, None) =~= "Edit — "@ + path + " — "@ + dec(n)
        + " clips"@);
    assert(edit_title_of(path, true, n, None) =~= "Edit — "@ + path + " * — "@ + dec(n)
        + " clips"@);
    assert(edit_title_of(path, false, 1, None) =~= "Edit — "@ + path + " — "@ + dec(1)
        + " clip"@);
}

/// What plays is told by its label, marked where it is looped, with the time that its
/// seek took once that is known.
pub proof fn law_what_plays_is_told(label: Seq<char>, ms: u64)
    ensures
        ({
            let told = |looped: bool, seek_ms: Option<u64>|
                player_text_of(Some(UpdateView::Playing { label, looped, seek_ms })).text;
            &&& told(false, None) == "▶ "@ + label
            &&& told(true, None) == "▶ "@ + label + " ⟳"@
            &&& told(false, Some(ms)) == "▶ "@ + label + "  seek "@ + dec(ms as nat) + " ms"@
        }),
        player_text_of(Some(UpdateView::Failed(label))).look == Look::Red,
{
    reveal_strlit("");
    assert(player_text_of(
        Some(UpdateView::Playing { label, looped: false, seek_ms: None }),
    ).text =~= "▶ "@ + label);
    assert(player_text_of(
        Some(UpdateView::Playing { label, looped: true, seek_ms: None }),
    ).text =~= "▶ "@ + label + " ⟳"@);
    assert(player_text_of(
        Some(UpdateView::Playing { label, looped: false, seek_ms: Some(ms) }),
    ).text =~= "▶ "@ + label + "  seek "@ + dec(ms as nat) + " ms"@);
}

/// The status line begins with what is to be told, else with a search that is on, else
/// with the corpus; then come the player and the keys of the pane in focus.
pub proof fn law_notes_come_first(
    text: Seq<char>,
    searching: bool,
    db: Seq<char>,
    player: Option<UpdateView>,
    focus: Pane,
)
    ensures
        ({
            let told = status_of(Some(text), searching, db, player, focus);
            let busy = status_of(None, true, db, player, focus);
            let calm = status_of(None, false, db, player, focus);
            &&& told.len() == 4 && told[0].text == text && told[0].look == Look::Yellow
            &&& busy.len() == 4 && busy[0].text == "searching…"@
            &&& calm.len() == 3 && calm[0].text == "corpus: "@ + db + "   "@
            &&& told[2] == player_text_of(player) && calm[1] == player_text_of(player)
            &&& told[3].text == hints_of(focus) && calm[2].text == hints_of(focus)
        }),
{
}

} // verus!
