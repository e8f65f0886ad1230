//! Phone tier processing: ARPAbet label parsing, the normative cut-point
//! table, SIL terminator insertion at chunk and turn boundaries, SIL-run
//! merging, and cut-point assignment. Times are nanoseconds.
use super::manifest::Phoneme;
use super::{CorpusError, CorpusFault};
use crate::number::{fmt_four, four_decimals, Real};
use crate::text::{chars_of, push_signed, same, signed_dec, string_of};
use vstd::prelude::*;
use vstd::string::StringExecFns;

verus! {

/// Maximum gap between two phones that still bond into a diphone. Given
/// contiguous tiers, a nonzero gap exists exactly where a NOISE row was
/// excised; this threshold decides whether a short blip is bridgeable or a
/// hard break.
pub const ADJACENCY_GAP_MAX: i64 = 20_000_000;

/// A SIL-side diphone boundary is displaced into the silence from the shared
/// speech edge by half the SIL duration, at most this.
pub const SIL_DISPLACEMENT_MAX: i64 = 200_000_000;

/// Tolerance for timestamps that should coincide exactly.
pub const T_EPS: i64 = 1;

/// How a phone is cut.
#[derive(Debug, Clone, Copy, PartialEq, Eq, Structural)]
pub enum CutClass {
    StopOrAffricate,
    Fricative,
    NasalOrLiquid,
    Monophthong,
    Diphthong,
    Glide,
}

/// The cut class of a stress-stripped ARPAbet label.
pub open spec fn class_of(base: Seq<char>) -> Option<CutClass> {
    if base == "B"@ || base == "D"@ || base == "G"@ || base == "K"@ || base == "P"@ || base == "T"@
        || base == "CH"@ || base == "JH"@ {
        Some(CutClass::StopOrAffricate)
    } else if base == "DH"@ || base == "F"@ || base == "HH"@ || base == "S"@ || base == "SH"@
        || base == "TH"@ || base == "V"@ || base == "Z"@ || base == "ZH"@ {
        Some(CutClass::Fricative)
    } else if base == "M"@ || base == "N"@ || base == "NG"@ || base == "L"@ || base == "R"@ {
        Some(CutClass::NasalOrLiquid)
    } else if base == "AA"@ || base == "AE"@ || base == "AH"@ || base == "AO"@ || base == "EH"@
        || base == "ER"@ || base == "IH"@ || base == "IY"@ || base == "UH"@ || base == "UW"@ {
        Some(CutClass::Monophthong)
    } else if base == "AY"@ || base == "AW"@ || base == "EY"@ || base == "OW"@ || base == "OY"@ {
        Some(CutClass::Diphthong)
    } else if base == "W"@ || base == "Y"@ {
        Some(CutClass::Glide)
    } else {
        None
    }
}

impl CutClass {
    /// The class of a stress-stripped label.
    pub fn of(base: &str) -> (r: Option<Self>)
        ensures
            r == class_of(base@),
    {
        if same(base, "B") || same(base, "D") || same(base, "G") || same(base, "K") || same(
            base,
            "P",
        ) || same(base, "T") || same(base, "CH") || same(base, "JH") {
            Some(CutClass::StopOrAffricate)
        } else if same(base, "DH") || same(base, "F") || same(base, "HH") || same(base, "S") || same(
            base,
            "SH",
        ) || same(base, "TH") || same(base, "V") || same(base, "Z") || same(base, "ZH") {
            Some(CutClass::Fricative)
        } else if same(base, "M") || same(base, "N") || same(base, "NG") || same(base, "L") || same(
            base,
            "R",
        ) {
            Some(CutClass::NasalOrLiquid)
        } else if same(base, "AA") || same(base, "AE") || same(base, "AH") || same(base, "AO")
            || same(base, "EH") || same(base, "ER") || same(base, "IH") || same(base, "IY") || same(
            base,
            "UH",
        ) || same(base, "UW") {
            Some(CutClass::Monophthong)
        } else if same(base, "AY") || same(base, "AW") || same(base, "EY") || same(base, "OW")
            || same(base, "OY") {
            Some(CutClass::Diphthong)
        } else if same(base, "W") || same(base, "Y") {
            Some(CutClass::Glide)
        } else {
            None
        }
    }

    /// The classes whose cut lands in a moving spectrum.
    pub open spec fn is_weak(self) -> bool {
        self == CutClass::Diphthong || self == CutClass::Glide
    }

    /// Whether a cut in this class is weak.
    pub fn weak_cut(self) -> (b: bool)
        ensures
            b == self.is_weak(),
    {
        match self {
            CutClass::Diphthong => true,
            CutClass::Glide => true,
            _ => false,
        }
    }
}

/// Where a SIL row comes from.
#[derive(Debug, Clone, Copy, PartialEq, Eq, PartialOrd, Ord, Structural)]
pub enum SilOrigin {
    Chunk,
    Turn,
    /// Highest precedence when merging SIL runs: acoustic truth wins.
    Mfa,
}

impl SilOrigin {
    /// Precedence when SIL runs merge.
    pub open spec fn rank(self) -> int {
        match self {
            SilOrigin::Chunk => 0,
            SilOrigin::Turn => 1,
            SilOrigin::Mfa => 2,
        }
    }

    fn precedence(self) -> (r: u8)
        ensures
            r == self.rank(),
    {
        match self {
            SilOrigin::Chunk => 0,
            SilOrigin::Turn => 1,
            SilOrigin::Mfa => 2,
        }
    }

    /// The origin's stored name.
    pub open spec fn name(self) -> Seq<char> {
        match self {
            SilOrigin::Mfa => "mfa"@,
            SilOrigin::Chunk => "chunk"@,
            SilOrigin::Turn => "turn"@,
        }
    }

    /// The origin's stored name.
    pub fn as_str(self) -> (s: &'static str)
        ensures
            s@ == self.name(),
    {
        match self {
            SilOrigin::Mfa => "mfa",
            SilOrigin::Chunk => "chunk",
            SilOrigin::Turn => "turn",
        }
    }
}

/// What a tier row is.
#[derive(Debug)]
pub enum Kind {
    Real { base: String, stress: Option<i64>, class: CutClass },
    Sil(SilOrigin),
    Noise,
}

/// What a tier row is, as a value.
pub enum KindView {
    Real { base: Seq<char>, stress: Option<i64>, class: CutClass },
    Sil(SilOrigin),
    Noise,
}

impl View for Kind {
    type V = KindView;

    open spec fn view(&self) -> KindView {
        match self {
            Kind::Real { base, stress, class } => KindView::Real {
                base: base@,
                stress: *stress,
                class: *class,
            },
            Kind::Sil(origin) => KindView::Sil(*origin),
            Kind::Noise => KindView::Noise,
        }
    }
}

impl Clone for Kind {
    fn clone(&self) -> (r: Self)
        ensures
            r@ == self@,
    {
        match self {
            Kind::Real { base, stress, class } => Kind::Real {
                base: base.clone(),
                stress: *stress,
                class: *class,
            },
            Kind::Sil(origin) => Kind::Sil(*origin),
            Kind::Noise => Kind::Noise,
        }
    }
}

/// A row of the working phone tier.
#[derive(Debug)]
pub struct TierPhone {
    pub t_start: i64,
    pub t_end: i64,
    pub kind: Kind,
    pub word_index: Option<usize>,
    pub confidence: Option<Real>,
    /// None for SIL and NOISE; assigned by `assign_cut_points`.
    pub cut_t: Option<i64>,
}

/// A tier row as a value.
pub struct PhoneView {
    pub t_start: int,
    pub t_end: int,
    pub kind: KindView,
    pub word_index: Option<usize>,
    pub confidence: Option<Real>,
    pub cut_t: Option<i64>,
}

impl View for TierPhone {
    type V = PhoneView;

    open spec fn view(&self) -> PhoneView {
        PhoneView {
            t_start: self.t_start as int,
            t_end: self.t_end as int,
            kind: self.kind@,
            word_index: self.word_index,
            confidence: self.confidence,
            cut_t: self.cut_t,
        }
    }
}

impl Clone for TierPhone {
    fn clone(&self) -> (r: Self)
        ensures
            r@ == self@,
    {
        TierPhone {
            t_start: self.t_start,
            t_end: self.t_end,
            kind: self.kind.clone(),
            word_index: self.word_index,
            confidence: self.confidence,
            cut_t: self.cut_t,
        }
    }
}

/// The rows of a tier.
pub open spec fn tier_views(tier: Seq<TierPhone>) -> Seq<PhoneView> {
    Seq::new(tier.len(), |i: int| tier[i]@)
}

impl PhoneView {
    pub open spec fn sil(self) -> bool {
        self.kind is Sil
    }

    pub open spec fn noise(self) -> bool {
        self.kind is Noise
    }

    pub open spec fn speech(self) -> bool {
        self.kind is Real
    }

    /// Inserted SIL terminators have no extent: they break adjacency but have
    /// no acoustic reality.
    pub open spec fn zero_extent(self) -> bool {
        self.t_end - self.t_start <= T_EPS
    }

    pub open spec fn base_text(self) -> Seq<char> {
        match self.kind {
            KindView::Real { base, .. } => base,
            KindView::Sil(_) => "SIL"@,
            KindView::Noise => "NOISE"@,
        }
    }

    pub open spec fn stress_mark(self) -> Option<i64> {
        match self.kind {
            KindView::Real { stress, .. } => stress,
            _ => None,
        }
    }

    pub open spec fn label_text(self) -> Seq<char> {
        match self.stress_mark() {
            Some(s) => self.base_text() + signed_dec(s as int),
            None => self.base_text(),
        }
    }

    pub open spec fn origin(self) -> Option<SilOrigin> {
        match self.kind {
            KindView::Sil(o) => Some(o),
            _ => None,
        }
    }

    pub open spec fn weak(self) -> bool {
        match self.kind {
            KindView::Real { class, .. } => class.is_weak(),
            _ => false,
        }
    }
}

impl TierPhone {
    /// The row's length.
    pub fn duration(&self) -> (d: i128)
        ensures
            d == self@.t_end - self@.t_start,
    {
        self.t_end as i128 - self.t_start as i128
    }

    pub fn is_sil(&self) -> (b: bool)
        ensures
            b == self@.sil(),
    {
        match self.kind {
            Kind::Sil(_) => true,
            _ => false,
        }
    }

    pub fn is_noise(&self) -> (b: bool)
        ensures
            b == self@.noise(),
    {
        match self.kind {
            Kind::Noise => true,
            _ => false,
        }
    }

    /// Whether the row has no extent.
    pub fn is_zero_extent(&self) -> (b: bool)
        ensures
            b == self@.zero_extent(),
    {
        self.duration() <= T_EPS as i128
    }

    /// The origin of a SIL row.
    pub fn sil_origin(&self) -> (r: Option<SilOrigin>)
        ensures
            r == self@.origin(),
    {
        match self.kind {
            Kind::Sil(origin) => Some(origin),
            _ => None,
        }
    }

    /// Stress-marked label, as stored.
    pub fn label(&self) -> (s: String)
        ensures
            s@ == self@.label_text(),
    {
        match &self.kind {
            Kind::Real { base, stress, .. } => match stress {
                Some(mark) => {
                    let mut s: String = base.clone();
                    push_signed(&mut s, *mark);
                    s
                },
                None => base.clone(),
            },
            Kind::Sil(_) => "SIL".to_owned(),
            Kind::Noise => "NOISE".to_owned(),
        }
    }

    /// Stress-stripped label, for the diphone match key.
    pub fn base(&self) -> (s: &str)
        ensures
            s@ == self@.base_text(),
    {
        match &self.kind {
            Kind::Real { base, .. } => base.as_str(),
            Kind::Sil(_) => "SIL",
            Kind::Noise => "NOISE",
        }
    }

    /// The stress mark of a vowel.
    pub fn stress(&self) -> (r: Option<i64>)
        ensures
            r == self@.stress_mark(),
    {
        match &self.kind {
            Kind::Real { stress, .. } => *stress,
            _ => None,
        }
    }

    /// Whether the row's cut is weak.
    pub fn weak_cut(&self) -> (b: bool)
        ensures
            b == self@.weak(),
    {
        match &self.kind {
            Kind::Real { class, .. } => class.weak_cut(),
            _ => false,
        }
    }
}

// --------------------------------------------------------------------- labels

/// What a phoneme label names: silence, noise, or an ARPAbet phone with its
/// stress digit.
pub open spec fn kind_of(label: Seq<char>) -> Option<KindView> {
    if label == "SIL"@ {
        Some(KindView::Sil(SilOrigin::Mfa))
    } else if label == "NOISE"@ {
        Some(KindView::Noise)
    } else {
        let marked = label.len() > 0 && '0' <= label.last() <= '2';
        let base = if marked {
            label.drop_last()
        } else {
            label
        };
        let stress = if marked {
            Some((label.last() as u32 - 48) as i64)
        } else {
            None
        };
        match class_of(base) {
            Some(class) => Some(KindView::Real { base, stress, class }),
            None => None,
        }
    }
}

/// Parses a phoneme label.
pub fn parse_kind(label: &str) -> (r: Result<Kind, CorpusError>)
    ensures
        match kind_of(label@) {
            Some(kind) => r is Ok && r->Ok_0@ == kind,
            None => r is Err && r->Err_0@ == (CorpusFault::UnknownPhoneLabel { label: label@ }),
        },
{
    if same(label, "SIL") {
        return Ok(Kind::Sil(SilOrigin::Mfa));
    }
    if same(label, "NOISE") {
        return Ok(Kind::Noise);
    }
    let chars: Vec<char> = chars_of(label);
    let n: usize = chars.len();
    let marked: bool = n > 0 && '0' <= chars[n - 1] && chars[n - 1] <= '2';
    let base: String = if marked {
        string_of(chars.as_slice(), 0, n - 1)
    } else {
        label.to_owned()
    };
    proof {
        if marked {
            assert(base@ =~= label@.drop_last());
        }
    }
    let stress: Option<i64> = if marked {
        Some((chars[n - 1] as u32 - 48) as i64)
    } else {
        None
    };
    match CutClass::of(base.as_str()) {
        Some(class) => Ok(Kind::Real { base, stress, class }),
        None => Err(CorpusError::UnknownPhoneLabel { label: label.to_owned() }),
    }
}

// ----------------------------------------------------------------------- tier

/// The tier row of one manifest phoneme, or why it is refused: a non-finite or
/// inverted interval, an unknown label, or a real phone without extent (zero
/// extent is reserved for inserted SIL terminators).
pub open spec fn row_of(p: Phoneme) -> Result<PhoneView, CorpusFault> {
    if !p.start.finite() || !p.end.finite() || p.end.nanos() < p.start.nanos() {
        Err(
            CorpusFault::InvalidInterval { what: "phoneme"@, t_start: p.start, t_end: p.end },
        )
    } else {
        match kind_of(p.label@) {
            None => Err(CorpusFault::UnknownPhoneLabel { label: p.label@ }),
            Some(kind) => if kind is Real && p.end.nanos() - p.start.nanos() <= T_EPS {
                Err(
                    CorpusFault::InvalidInterval {
                        what: "zero-extent phoneme"@,
                        t_start: p.start,
                        t_end: p.end,
                    },
                )
            } else {
                Ok(
                    PhoneView {
                        t_start: p.start.nanos(),
                        t_end: p.end.nanos(),
                        kind,
                        word_index: if kind is Real {
                            p.word_index
                        } else {
                            None
                        },
                        confidence: p.confidence,
                        cut_t: None,
                    },
                )
            },
        }
    }
}

/// The rows of a phoneme list, or the first refusal.
pub open spec fn rows_of(ps: Seq<Phoneme>) -> Result<Seq<PhoneView>, CorpusFault>
    decreases ps.len(),
{
    if ps.len() == 0 {
        Ok(Seq::empty())
    } else {
        match rows_of(ps.drop_last()) {
            Err(fault) => Err(fault),
            Ok(rows) => match row_of(ps.last()) {
                Err(fault) => Err(fault),
                Ok(row) => Ok(rows.push(row)),
            },
        }
    }
}

/// Whether row `a` belongs no later than row `b`: by start, then by end.
pub open spec fn no_later(a: PhoneView, b: PhoneView) -> bool {
    a.t_start < b.t_start || (a.t_start == b.t_start && a.t_end <= b.t_end)
}

/// A row put into an ordered tier, after its equals.
pub open spec fn with_row(tier: Seq<PhoneView>, row: PhoneView) -> Seq<PhoneView>
    decreases tier.len(),
{
    if tier.len() == 0 || no_later(tier.last(), row) {
        tier.push(row)
    } else {
        with_row(tier.drop_last(), row).push(tier.last())
    }
}

/// Rows ordered by time, equals in their given order.
pub open spec fn ordered(rows: Seq<PhoneView>) -> Seq<PhoneView>
    decreases rows.len(),
{
    if rows.len() == 0 {
        Seq::empty()
    } else {
        with_row(ordered(rows.drop_last()), rows.last())
    }
}

/// Whether row `b` starts before its predecessor `a` ends.
pub open spec fn overlaps(a: PhoneView, b: PhoneView) -> bool {
    b.t_start < a.t_end - T_EPS
}

/// The first row at or after `from` that overlaps its predecessor, or the
/// number of rows.
pub open spec fn first_overlap(tier: Seq<PhoneView>, from: int) -> int
    decreases tier.len() - from,
{
    if from < 1 || from >= tier.len() {
        tier.len() as int
    } else if overlaps(tier[from - 1], tier[from]) {
        from
    } else {
        first_overlap(tier, from + 1)
    }
}

/// The working tier of a phoneme list: its rows in time order, refused where
/// two of them overlap.
pub open spec fn tier_of(ps: Seq<Phoneme>) -> Result<Seq<PhoneView>, CorpusFault> {
    match rows_of(ps) {
        Err(fault) => Err(fault),
        Ok(rows) => {
            let tier = ordered(rows);
            let at = first_overlap(tier, 1);
            if at < tier.len() {
                Err(
                    CorpusFault::Contract(
                        "phoneme intervals overlap at "@ + four_decimals(tier[at].t_start) + "s"@,
                    ),
                )
            } else {
                Ok(tier)
            }
        },
    }
}

/// The rows in time order.
pub open spec fn in_time_order(tier: Seq<PhoneView>) -> bool {
    forall|i: int, j: int|
        #![trigger tier[i], tier[j]]
        0 <= i <= j < tier.len() ==> no_later(tier[i], tier[j])
}

proof fn lemma_with_row(tier: Seq<PhoneView>, row: PhoneView)
    requires
        in_time_order(tier),
    ensures
        in_time_order(with_row(tier, row)),
        with_row(tier, row).to_multiset() == tier.to_multiset().insert(row),
    decreases tier.len(),
{
    broadcast use vstd::seq_lib::group_to_multiset_ensures;

    let out = with_row(tier, row);
    if tier.len() == 0 || no_later(tier.last(), row) {
        assert forall|i: int, j: int|
            #![trigger out[i], out[j]]
            0 <= i <= j < out.len() implies no_later(out[i], out[j]) by {
            if j == tier.len() && i < tier.len() {
                assert(no_later(tier[i], tier[tier.len() - 1]));
            }
        }
    } else {
        let before = tier.drop_last();
        let last = tier.last();
        assert forall|i: int, j: int|
            #![trigger before[i], before[j]]
            0 <= i <= j < before.len() implies no_later(before[i], before[j]) by {
            assert(no_later(tier[i], tier[j]));
        }
        lemma_with_row(before, row);
        let inner = with_row(before, row);
        assert forall|i: int| #![trigger before[i]] 0 <= i < before.len() implies no_later(
            before[i],
            last,
        ) by {
            assert(no_later(tier[i], tier[tier.len() - 1]));
        }
        lemma_with_row_bound(before, row, last);
        assert forall|i: int, j: int|
            #![trigger out[i], out[j]]
            0 <= i <= j < out.len() implies no_later(out[i], out[j]) by {
            if j < inner.len() {
                assert(no_later(inner[i], inner[j]));
            } else if i < inner.len() {
                assert(no_later(inner[i], last));
            }
        }
        assert(tier =~= before.push(last));
        assert(tier.to_multiset() =~= before.to_multiset().insert(last));
        assert(out.to_multiset() =~= inner.to_multiset().insert(last));
        assert(out.to_multiset() =~= tier.to_multiset().insert(row));
    }
}

proof fn lemma_with_row_bound(tier: Seq<PhoneView>, row: PhoneView, x: PhoneView)
    requires
        no_later(row, x),
        forall|i: int| #![trigger tier[i]] 0 <= i < tier.len() ==> no_later(tier[i], x),
    ensures
        forall|i: int|
            #![trigger with_row(tier, row)[i]]
            0 <= i < with_row(tier, row).len() ==> no_later(with_row(tier, row)[i], x),
    decreases tier.len(),
{
    if tier.len() > 0 && !no_later(tier.last(), row) {
        let before = tier.drop_last();
        assert forall|i: int| #![trigger before[i]] 0 <= i < before.len() implies no_later(
            before[i],
            x,
        ) by {
            assert(no_later(tier[i], x));
        }
        lemma_with_row_bound(before, row, x);
        assert(no_later(tier[tier.len() - 1], x));
        let (inner, out) = (with_row(before, row), with_row(tier, row));
        assert forall|i: int| #![trigger out[i]] 0 <= i < out.len() implies no_later(
            out[i],
            x,
        ) by {
            if i < inner.len() {
                assert(no_later(inner[i], x));
            }
        }
    }
}

/// The tier holds exactly the phonemes' rows, in time order.
pub proof fn law_tier_is_ordered(rows: Seq<PhoneView>)
    ensures
        in_time_order(ordered(rows)),
        ordered(rows).to_multiset() == rows.to_multiset(),
    decreases rows.len(),
{
    broadcast use vstd::seq_lib::group_to_multiset_ensures;

    if rows.len() > 0 {
        law_tier_is_ordered(rows.drop_last());
        lemma_with_row(ordered(rows.drop_last()), rows.last());
        assert(rows =~= rows.drop_last().push(rows.last()));
    } else {
        assert(rows =~= Seq::empty());
    }
}

fn parse_row(p: &Phoneme) -> (r: Result<TierPhone, CorpusError>)
    ensures
        match row_of(*p) {
            Ok(row) => r is Ok && r->Ok_0@ == row,
            Err(fault) => r is Err && r->Err_0@ == fault,
        },
{
    match (p.start, p.end) {
        (Real::Nano(start), Real::Nano(end)) => {
            if end < start {
                return Err(
                    CorpusError::InvalidInterval {
                        what: "phoneme",
                        t_start: p.start,
                        t_end: p.end,
                    },
                );
            }
            let kind: Kind = match parse_kind(p.label.as_str()) {
                Ok(kind) => kind,
                Err(e) => {
                    return Err(e);
                },
            };
            let speech: bool = match kind {
                Kind::Real { .. } => true,
                _ => false,
            };
            if speech && end as i128 - start as i128 <= T_EPS as i128 {
                return Err(
                    CorpusError::InvalidInterval {
                        what: "zero-extent phoneme",
                        t_start: p.start,
                        t_end: p.end,
                    },
                );
            }
            Ok(
                TierPhone {
                    t_start: start,
                    t_end: end,
                    kind,
                    word_index: if speech {
                        p.word_index
                    } else {
                        None
                    },
                    confidence: p.confidence,
                    cut_t: None,
                },
            )
        },
        _ => Err(
            CorpusError::InvalidInterval { what: "phoneme", t_start: p.start, t_end: p.end },
        ),
    }
}

fn insert_row(tier: &mut Vec<TierPhone>, row: TierPhone)
    ensures
        tier_views(final(tier)@) == with_row(tier_views(old(tier)@), row@),
{
    let ghost all = tier_views(tier@);
    let mut i: usize = tier.len();
    assert(with_row(all.take(i as int), row@) + all.skip(i as int) =~= with_row(all, row@)) by {
        assert(all.take(i as int) =~= all);
    }
    while i > 0 && (tier[i - 1].t_start > row.t_start || (tier[i - 1].t_start == row.t_start
        && tier[i - 1].t_end > row.t_end))
        invariant
            i <= tier@.len(),
            all == tier_views(tier@),
            with_row(all.take(i as int), row@) + all.skip(i as int) == with_row(all, row@),
        decreases i,
    {
        proof {
            let now = all.take(i as int);
            assert(now.last() == tier@[i - 1]@);
            assert(now.drop_last() =~= all.take(i - 1));
            assert(with_row(now, row@) + all.skip(i as int) =~= with_row(all.take(i - 1), row@)
                + all.skip(i - 1));
        }
        i = i - 1;
    }
    proof {
        if i > 0 {
            assert(all.take(i as int).last() == tier@[i - 1]@);
        }
        assert(with_row(all.take(i as int), row@) =~= all.take(i as int).push(row@));
    }
    let ghost row_view = row@;
    tier.insert(i, row);
    assert(tier_views(tier@) =~= all.take(i as int).push(row_view) + all.skip(i as int));
}

proof fn lemma_rows_stay(ps: Seq<Phoneme>, n: int)
    requires
        0 <= n <= ps.len(),
        rows_of(ps.take(n)) is Err,
    ensures
        rows_of(ps) == rows_of(ps.take(n)),
    decreases ps.len() - n,
{
    if n == ps.len() {
        assert(ps.take(n) =~= ps);
    } else {
        assert(ps.take(n + 1).drop_last() =~= ps.take(n));
        lemma_rows_stay(ps, n + 1);
    }
}

/// Parses the manifest phoneme tier into a time-ordered working tier. Overlap
/// means a malformed manifest, and a negative inter-phone gap would corrupt
/// diphone spans.
pub fn build_tier(phonemes: &Vec<Phoneme>) -> (r: Result<Vec<TierPhone>, CorpusError>)
    ensures
        match tier_of(phonemes@) {
            Ok(tier) => r is Ok && tier_views(r->Ok_0@) == tier,
            Err(fault) => r is Err && r->Err_0@ == fault,
        },
{
    let mut tier: Vec<TierPhone> = Vec::new();
    let ghost mut rows: Seq<PhoneView> = Seq::empty();
    let mut i: usize = 0;
    assert(phonemes@.take(0) =~= Seq::empty());
    assert(tier_views(tier@) =~= Seq::empty());
    while i < phonemes.len()
        invariant
            i <= phonemes@.len(),
            rows_of(phonemes@.take(i as int)) == Ok::<Seq<PhoneView>, CorpusFault>(rows),
            tier_views(tier@) == ordered(rows),
        decreases phonemes@.len() - i,
    {
        proof {
            assert(phonemes@.take(i + 1).drop_last() =~= phonemes@.take(i as int));
            assert(phonemes@.take(i + 1).last() == phonemes@[i as int]);
        }
        match parse_row(&phonemes[i]) {
            Err(e) => {
                proof {
                    lemma_rows_stay(phonemes@, i + 1);
                }
                return Err(e);
            },
            Ok(row) => {
                proof {
                    let more = rows.push(row@);
                    assert(more.drop_last() =~= rows);
                    rows = more;
                }
                insert_row(&mut tier, row);
            },
        }
        i = i + 1;
    }
    assert(phonemes@.take(i as int) =~= phonemes@);
    let mut k: usize = 1;
    let ghost all = tier_views(tier@);
    while k < tier.len()
        invariant
            k >= 1,
            all == tier_views(tier@),
            rows_of(phonemes@) == Ok::<Seq<PhoneView>, CorpusFault>(rows),
            all == ordered(rows),
            first_overlap(all, 1) == first_overlap(all, k as int),
        decreases tier@.len() - k,
    {
        assert(all[k - 1] == tier@[k - 1]@ && all[k as int] == tier@[k as int]@);
        if (tier[k].t_start as i128) < tier[k - 1].t_end as i128 - T_EPS as i128 {
            let mut s: String = "phoneme intervals overlap at ".to_owned();
            s.append(fmt_four(tier[k].t_start).as_str());
            s.append("s");
            return Err(CorpusError::Contract(s));
        }
        k = k + 1;
    }
    Ok(tier)
}

/// The indices of the rows that are not NOISE, ascending.
pub open spec fn excised(tier: Seq<PhoneView>) -> Seq<int>
    decreases tier.len(),
{
    if tier.len() == 0 {
        Seq::empty()
    } else if tier.last().noise() {
        excised(tier.drop_last())
    } else {
        excised(tier.drop_last()).push(tier.len() - 1)
    }
}

/// A list of indices as integers.
pub open spec fn index_views(v: Seq<usize>) -> Seq<int> {
    Seq::new(v.len(), |i: int| v[i] as int)
}

/// Indices of the adjacency view: the tier minus NOISE rows. Cut-point
/// assignment and diphone derivation see the same view.
pub fn noise_excised_view(tier: &Vec<TierPhone>) -> (view: Vec<usize>)
    ensures
        index_views(view@) == excised(tier_views(tier@)),
{
    let ghost all = tier_views(tier@);
    let mut view: Vec<usize> = Vec::new();
    let mut i: usize = 0;
    assert(all.take(0) =~= Seq::empty());
    assert(index_views(view@) =~= Seq::empty());
    while i < tier.len()
        invariant
            i <= tier@.len(),
            all == tier_views(tier@),
            index_views(view@) == excised(all.take(i as int)),
        decreases tier@.len() - i,
    {
        let ghost before = index_views(view@);
        assert(all.take(i + 1).drop_last() =~= all.take(i as int));
        if !tier[i].is_noise() {
            view.push(i);
            assert(index_views(view@) =~= before.push(i as int));
        }
        i = i + 1;
    }
    assert(all.take(i as int) =~= all);
    view
}

/// The adjacency view ascends and points at rows that are not NOISE.
pub proof fn lemma_excised(tier: Seq<PhoneView>)
    ensures
        forall|k: int|
            #![trigger excised(tier)[k]]
            0 <= k < excised(tier).len() ==> 0 <= excised(tier)[k] < tier.len()
                && !tier[excised(tier)[k]].noise(),
        forall|k: int, l: int|
            #![trigger excised(tier)[k], excised(tier)[l]]
            0 <= k < l < excised(tier).len() ==> excised(tier)[k] < excised(tier)[l],
        forall|i: int|
            #![trigger tier[i]]
            0 <= i < tier.len() && !tier[i].noise() ==> excised(tier).contains(i),
    decreases tier.len(),
{
    if tier.len() > 0 {
        let before = tier.drop_last();
        lemma_excised(before);
        let a = excised(before);
        let b = excised(tier);
        assert forall|k: int| #![trigger b[k]] 0 <= k < b.len() implies 0 <= b[k] < tier.len()
            && !tier[b[k]].noise() by {
            if k < a.len() {
                assert(b[k] == a[k]);
                assert(before[a[k]] == tier[a[k]]);
            }
        }
        assert forall|k: int, l: int|
            #![trigger b[k], b[l]]
            0 <= k < l < b.len() implies b[k] < b[l] by {
            assert(b[k] == a[k]);
            if l < a.len() {
                assert(b[l] == a[l]);
            }
        }
        assert forall|i: int|
            #![trigger tier[i]]
            0 <= i < tier.len() && !tier[i].noise() implies b.contains(i) by {
            if i < before.len() {
                assert(before[i] == tier[i]);
                assert(a.contains(i));
                let k = choose|k: int| 0 <= k < a.len() && a[k] == i;
                assert(b[k] == i);
            } else {
                assert(b[a.len() as int] == i);
            }
        }
    }
}

// ---------------------------------------------------------------- terminators

/// Every row ends no earlier than it starts.
pub open spec fn tier_proper(tier: Seq<PhoneView>) -> bool {
    forall|i: int| #![trigger tier[i]] 0 <= i < tier.len() ==> tier[i].t_start <= tier[i].t_end
}

/// Whether a SIL row covers or touches a time.
pub open spec fn touches_sil(tier: Seq<PhoneView>, x: int) -> bool {
    exists|i: int|
        #![trigger tier[i]]
        0 <= i < tier.len() && tier[i].sil() && tier[i].t_start - T_EPS <= x <= tier[i].t_end
            + T_EPS
}

/// The distance of two times.
pub open spec fn distance(a: int, b: int) -> int {
    if a < b {
        b - a
    } else {
        a - b
    }
}

/// The one of two times that is nearer to `t`, the first where they are
/// equally near.
pub open spec fn nearer(a: int, b: int, t: int) -> int {
    if distance(b, t) < distance(a, t) {
        b
    } else {
        a
    }
}

/// The row edge nearest to `t`, the first of equally near ones.
pub open spec fn nearest_edge(tier: Seq<PhoneView>, t: int) -> int
    decreases tier.len(),
{
    if tier.len() <= 1 {
        nearer(tier[0].t_start, tier[0].t_end, t)
    } else {
        let best = nearest_edge(tier.drop_last(), t);
        nearer(nearer(best, tier.last().t_start, t), tier.last().t_end, t)
    }
}

/// The first row at or after `from` that starts no earlier than `edge`, or the
/// number of rows.
pub open spec fn slot(tier: Seq<PhoneView>, edge: int, from: int) -> int
    decreases tier.len() - from,
{
    if from < 0 || from >= tier.len() || tier[from].t_start >= edge - T_EPS {
        from
    } else {
        slot(tier, edge, from + 1)
    }
}

/// A zero-length SIL row.
pub open spec fn terminator(edge: int, origin: SilOrigin) -> PhoneView {
    PhoneView {
        t_start: edge,
        t_end: edge,
        kind: KindView::Sil(origin),
        word_index: None,
        confidence: None,
        cut_t: None,
    }
}

/// A tier with one boundary terminated: where a SIL covers or touches the
/// boundary, or the row edge nearest to it, adjacency is broken already;
/// elsewhere a terminator goes in at that edge.
pub open spec fn terminated_at(tier: Seq<PhoneView>, t: int, origin: SilOrigin) -> Seq<PhoneView> {
    let edge = nearest_edge(tier, t);
    if tier.len() == 0 || touches_sil(tier, t) || touches_sil(tier, edge) {
        tier
    } else {
        tier.insert(slot(tier, edge, 0), terminator(edge, origin))
    }
}

/// A tier with a list of boundaries terminated, in order.
pub open spec fn terminated(
    tier: Seq<PhoneView>,
    boundaries: Seq<(i64, SilOrigin)>,
) -> Seq<PhoneView>
    decreases boundaries.len(),
{
    if boundaries.len() == 0 {
        tier
    } else {
        terminated_at(
            terminated(tier, boundaries.drop_last()),
            boundaries.last().0 as int,
            boundaries.last().1,
        )
    }
}

fn touches(tier: &Vec<TierPhone>, x: i64) -> (r: bool)
    ensures
        r == touches_sil(tier_views(tier@), x as int),
{
    let ghost all = tier_views(tier@);
    let mut i: usize = 0;
    while i < tier.len()
        invariant
            i <= tier@.len(),
            all == tier_views(tier@),
            forall|j: int|
                #![trigger all[j]]
                0 <= j < i ==> !(all[j].sil() && all[j].t_start - T_EPS <= x <= all[j].t_end
                    + T_EPS),
        decreases tier@.len() - i,
    {
        let p: &TierPhone = &tier[i];
        assert(all[i as int] == p@);
        if p.is_sil() && x as i128 >= p.t_start as i128 - T_EPS as i128 && x as i128
            <= p.t_end as i128 + T_EPS as i128 {
            return true;
        }
        i = i + 1;
    }
    false
}

fn pick_nearer(a: i64, b: i64, t: i64) -> (r: i64)
    ensures
        r == nearer(a as int, b as int, t as int),
{
    let da: i128 = if a < t {
        t as i128 - a as i128
    } else {
        a as i128 - t as i128
    };
    let db: i128 = if b < t {
        t as i128 - b as i128
    } else {
        b as i128 - t as i128
    };
    if db < da {
        b
    } else {
        a
    }
}

fn find_edge(tier: &Vec<TierPhone>, t: i64) -> (edge: i64)
    requires
        tier@.len() > 0,
    ensures
        edge == nearest_edge(tier_views(tier@), t as int),
{
    let ghost all = tier_views(tier@);
    let mut edge: i64 = pick_nearer(tier[0].t_start, tier[0].t_end, t);
    let mut i: usize = 1;
    assert(all.take(1)[0] == tier@[0]@);
    while i < tier.len()
        invariant
            1 <= i <= tier@.len(),
            all == tier_views(tier@),
            edge == nearest_edge(all.take(i as int), t as int),
        decreases tier@.len() - i,
    {
        assert(all.take(i + 1).drop_last() =~= all.take(i as int));
        assert(all.take(i + 1).last() == tier@[i as int]@);
        edge = pick_nearer(pick_nearer(edge, tier[i].t_start, t), tier[i].t_end, t);
        i = i + 1;
    }
    assert(all.take(i as int) =~= all);
    edge
}

fn find_slot(tier: &Vec<TierPhone>, edge: i64) -> (at: usize)
    ensures
        at == slot(tier_views(tier@), edge as int, 0),
        at <= tier@.len(),
{
    let ghost all = tier_views(tier@);
    let mut i: usize = 0;
    while i < tier.len() && (tier[i].t_start as i128) < edge as i128 - T_EPS as i128
        invariant
            i <= tier@.len(),
            all == tier_views(tier@),
            slot(all, edge as int, 0) == slot(all, edge as int, i as int),
        decreases tier@.len() - i,
    {
        assert(all[i as int] == tier@[i as int]@);
        i = i + 1;
    }
    if i < tier.len() {
        assert(all[i as int] == tier@[i as int]@);
    }
    i
}

/// Inserts SIL adjacency terminators at chunk-edge and speaker-turn
/// boundaries. Each boundary time is snapped to the nearest row edge; the
/// zero-length row goes after the row that ends there and before the one that
/// starts there.
pub fn insert_terminators(tier: &mut Vec<TierPhone>, boundaries: &Vec<(i64, SilOrigin)>)
    ensures
        tier_views(final(tier)@) == terminated(tier_views(old(tier)@), boundaries@),
{
    let ghost start = tier_views(tier@);
    let mut k: usize = 0;
    assert(boundaries@.take(0) =~= Seq::empty());
    while k < boundaries.len()
        invariant
            k <= boundaries@.len(),
            tier_views(tier@) == terminated(start, boundaries@.take(k as int)),
        decreases boundaries@.len() - k,
    {
        let (t, origin): (i64, SilOrigin) = boundaries[k];
        let ghost all = tier_views(tier@);
        proof {
            assert(boundaries@.take(k + 1).drop_last() =~= boundaries@.take(k as int));
            assert(boundaries@.take(k + 1).last() == (t, origin));
        }
        if tier.len() > 0 && !touches(tier, t) {
            let edge: i64 = find_edge(tier, t);
            if !touches(tier, edge) {
                let at: usize = find_slot(tier, edge);
                tier.insert(
                    at,
                    TierPhone {
                        t_start: edge,
                        t_end: edge,
                        kind: Kind::Sil(origin),
                        word_index: None,
                        confidence: None,
                        cut_t: None,
                    },
                );
                assert(tier_views(tier@) =~= all.insert(
                    at as int,
                    terminator(edge as int, origin),
                ));
            }
        }
        k = k + 1;
    }
    assert(boundaries@.take(k as int) =~= boundaries@);
}

/// The edges of a tier: row after row, start and end.
pub open spec fn edge_at(tier: Seq<PhoneView>, p: int) -> int {
    if p % 2 == 0 {
        tier[p / 2].t_start
    } else {
        tier[p / 2].t_end
    }
}

/// `p` is the first edge that is nearest to `t`.
pub open spec fn first_nearest(tier: Seq<PhoneView>, t: int, p: int) -> bool {
    &&& 0 <= p < 2 * tier.len()
    &&& forall|q: int|
        #![trigger edge_at(tier, q)]
        0 <= q < 2 * tier.len() ==> distance(edge_at(tier, q), t) >= distance(
            edge_at(tier, p),
            t,
        ) && (q < p ==> distance(edge_at(tier, q), t) > distance(edge_at(tier, p), t))
}

proof fn lemma_nearest_edge(tier: Seq<PhoneView>, t: int) -> (p: int)
    requires
        tier.len() > 0,
    ensures
        first_nearest(tier, t, p),
        edge_at(tier, p) == nearest_edge(tier, t),
    decreases tier.len(),
{
    let n = tier.len() as int;
    if n == 1 {
        let p: int = if distance(tier[0].t_end, t) < distance(tier[0].t_start, t) {
            1
        } else {
            0
        };
        assert(edge_at(tier, 0) == tier[0].t_start && edge_at(tier, 1) == tier[0].t_end);
        p
    } else {
        let before = tier.drop_last();
        let p0 = lemma_nearest_edge(before, t);
        assert forall|q: int| 0 <= q < 2 * (n - 1) implies #[trigger] edge_at(tier, q) == edge_at(
            before,
            q,
        ) by {
            assert(before[q / 2] == tier[q / 2]);
        }
        assert(edge_at(tier, 2 * n - 2) == tier[n - 1].t_start);
        assert(edge_at(tier, 2 * n - 1) == tier[n - 1].t_end);
        let best = edge_at(before, p0);
        let p1 = if distance(tier[n - 1].t_start, t) < distance(best, t) {
            2 * n - 2
        } else {
            p0
        };
        let mid = edge_at(tier, p1);
        let p = if distance(tier[n - 1].t_end, t) < distance(mid, t) {
            2 * n - 1
        } else {
            p1
        };
        assert forall|q: int|
            #![trigger edge_at(tier, q)]
            0 <= q < 2 * tier.len() implies distance(edge_at(tier, q), t) >= distance(
            edge_at(tier, p),
            t,
        ) && (q < p ==> distance(edge_at(tier, q), t) > distance(edge_at(tier, p), t)) by {
            if q < 2 * (n - 1) {
                assert(distance(edge_at(before, q), t) >= distance(edge_at(before, p0), t));
            }
        }
        p
    }
}

/// A boundary that repeats another adds nothing: the second terminator would
/// go where the first one is.
pub proof fn law_duplicate_boundary_adds_nothing(
    tier: Seq<PhoneView>,
    t: int,
    first: SilOrigin,
    second: SilOrigin,
)
    ensures
        terminated_at(terminated_at(tier, t, first), t, second) == terminated_at(tier, t, first),
{
    let edge = nearest_edge(tier, t);
    if tier.len() > 0 && !touches_sil(tier, t) && !touches_sil(tier, edge) {
        let at = slot(tier, edge, 0);
        lemma_slot_bounds(tier, edge, 0);
        let row = terminator(edge, first);
        let after = tier.insert(at, row);
        let p = lemma_nearest_edge(tier, t);
        let p2 = lemma_nearest_edge(after, t);
        // The inserted row's edges are as near as the nearest one.
        let mine = if 2 * at <= p {
            2 * at
        } else {
            p
        };
        assert forall|q: int| 0 <= q < 2 * after.len() implies #[trigger] edge_at(after, q) == (if q
            < 2 * at {
            edge_at(tier, q)
        } else if q < 2 * at + 2 {
            edge
        } else {
            edge_at(tier, q - 2)
        }) by {
            if q < 2 * at {
                assert(after[q / 2] == tier[q / 2]);
            } else if q < 2 * at + 2 {
                assert(q / 2 == at);
            } else {
                assert((q - 2) / 2 == q / 2 - 1);
                assert(after[q / 2] == tier[q / 2 - 1]);
            }
        }
        assert(first_nearest(after, t, mine)) by {
            assert(edge_at(after, mine) == edge);
            assert forall|q: int|
                #![trigger edge_at(after, q)]
                0 <= q < 2 * after.len() implies distance(edge_at(after, q), t) >= distance(
                edge_at(after, mine),
                t,
            ) && (q < mine ==> distance(edge_at(after, q), t) > distance(
                edge_at(after, mine),
                t,
            )) by {
                if q < 2 * at {
                    assert(distance(edge_at(tier, q), t) >= distance(edge_at(tier, p), t));
                } else if q >= 2 * at + 2 {
                    assert(distance(edge_at(tier, q - 2), t) >= distance(edge_at(tier, p), t));
                }
            }
        }
        assert(edge_at(after, p2) == edge) by {
            if p2 < mine {
                assert(distance(edge_at(after, p2), t) > distance(edge_at(after, mine), t));
                assert(distance(edge_at(after, mine), t) >= distance(edge_at(after, p2), t));
            } else if mine < p2 {
                assert(distance(edge_at(after, mine), t) > distance(edge_at(after, p2), t));
                assert(distance(edge_at(after, p2), t) >= distance(edge_at(after, mine), t));
            }
        }
        assert(after[at] == row);
        assert(touches_sil(after, edge));
    }
}

proof fn lemma_slot_bounds(tier: Seq<PhoneView>, edge: int, from: int)
    requires
        0 <= from <= tier.len(),
    ensures
        from <= slot(tier, edge, from) <= tier.len(),
    decreases tier.len() - from,
{
    if from < tier.len() && tier[from].t_start < edge - T_EPS {
        lemma_slot_bounds(tier, edge, from + 1);
    }
}

/// Whether a time is a row edge.
pub open spec fn is_edge(tier: Seq<PhoneView>, x: int) -> bool {
    exists|q: int| 0 <= q < 2 * tier.len() && #[trigger] edge_at(tier, q) == x
}

/// Whether a time is a row edge, and no row edge is nearer to `t`.
pub open spec fn is_nearest_edge(tier: Seq<PhoneView>, x: int, t: int) -> bool {
    &&& is_edge(tier, x)
    &&& forall|q: int|
        0 <= q < 2 * tier.len() ==> distance(x, t) <= distance(#[trigger] edge_at(tier, q), t)
}

/// Whether adjacency is broken at a boundary: a SIL covers or touches it, or the
/// row edge nearest to it.
pub open spec fn settled(tier: Seq<PhoneView>, t: int) -> bool {
    touches_sil(tier, t) || touches_sil(tier, nearest_edge(tier, t))
}

/// The edges of a tier with a row put in.
proof fn lemma_inserted_edges(tier: Seq<PhoneView>, at: int, row: PhoneView)
    requires
        0 <= at <= tier.len(),
        row.t_start == row.t_end,
    ensures
        forall|q: int|
            0 <= q < 2 * (tier.len() + 1) ==> #[trigger] edge_at(tier.insert(at, row), q) == (if q
                < 2 * at {
                edge_at(tier, q)
            } else if q < 2 * at + 2 {
                row.t_start
            } else {
                edge_at(tier, q - 2)
            }),
{
    let after = tier.insert(at, row);
    assert forall|q: int| 0 <= q < 2 * after.len() implies #[trigger] edge_at(after, q) == (if q < 2
        * at {
        edge_at(tier, q)
    } else if q < 2 * at + 2 {
        row.t_start
    } else {
        edge_at(tier, q - 2)
    }) by {
        if q < 2 * at {
            assert(after[q / 2] == tier[q / 2]);
        } else if q < 2 * at + 2 {
            assert(q / 2 == at);
        } else {
            assert((q - 2) / 2 == q / 2 - 1);
            assert(after[q / 2] == tier[q / 2 - 1]);
        }
    }
}

/// A boundary stays settled when a terminator goes in at some row edge.
proof fn lemma_stays_settled(tier: Seq<PhoneView>, at: int, edge: int, origin: SilOrigin, t: int)
    requires
        tier.len() > 0,
        0 <= at <= tier.len(),
        is_edge(tier, edge),
        settled(tier, t),
    ensures
        settled(tier.insert(at, terminator(edge, origin)), t),
{
    let row = terminator(edge, origin);
    let after = tier.insert(at, row);
    lemma_inserted_edges(tier, at, row);
    let p = lemma_nearest_edge(tier, t);
    let p2 = lemma_nearest_edge(after, t);
    lemma_touches_inserted(tier, at, row, t);
    lemma_touches_inserted(tier, at, row, nearest_edge(tier, t));
    assert(after[at] == row);
    if 2 * at <= p2 < 2 * at + 2 {
        assert(touches_sil(after, edge));
    } else {
        // The same edge is the nearest, behind the same ones.
        let q = if p2 < 2 * at {
            p2
        } else {
            p2 - 2
        };
        let image = if p < 2 * at {
            p
        } else {
            p + 2
        };
        assert(edge_at(after, p2) == edge_at(tier, q));
        assert(edge_at(after, image) == edge_at(tier, p));
        assert(distance(edge_at(tier, q), t) >= distance(edge_at(tier, p), t));
        assert(distance(edge_at(after, image), t) >= distance(edge_at(after, p2), t));
        if q < p {
            assert(distance(edge_at(tier, q), t) > distance(edge_at(tier, p), t));
        } else if q > p {
            assert(image < p2);
            assert(distance(edge_at(after, image), t) > distance(edge_at(after, p2), t));
        }
    }
}

proof fn lemma_touches_inserted(tier: Seq<PhoneView>, at: int, row: PhoneView, x: int)
    requires
        0 <= at <= tier.len(),
    ensures
        touches_sil(tier, x) ==> touches_sil(tier.insert(at, row), x),
{
    if touches_sil(tier, x) {
        let i = choose|i: int|
            #![trigger tier[i]]
            0 <= i < tier.len() && tier[i].sil() && tier[i].t_start - T_EPS <= x <= tier[i].t_end
                + T_EPS;
        let j = if i < at {
            i
        } else {
            i + 1
        };
        assert(tier.insert(at, row)[j] == tier[i]);
    }
}

/// What terminating one boundary does: the boundary is settled, and so stays
/// every boundary that was.
proof fn lemma_terminated_at_settles(tier: Seq<PhoneView>, t: int, origin: SilOrigin, u: int)
    requires
        tier.len() > 0,
    ensures
        settled(terminated_at(tier, t, origin), t),
        settled(tier, u) ==> settled(terminated_at(tier, t, origin), u),
        terminated_at(tier, t, origin).len() > 0,
{
    if !settled(tier, t) {
        let edge = nearest_edge(tier, t);
        let at = slot(tier, edge, 0);
        lemma_slot_bounds(tier, edge, 0);
        let p = lemma_nearest_edge(tier, t);
        assert(is_edge(tier, edge));
        if settled(tier, u) {
            lemma_stays_settled(tier, at, edge, origin, u);
        }
        law_duplicate_boundary_adds_nothing(tier, t, origin, origin);
        let after = tier.insert(at, terminator(edge, origin));
        if !settled(after, t) {
            lemma_slot_bounds(after, nearest_edge(after, t), 0);
            assert(terminated_at(after, t, origin).len() == after.len() + 1);
        }
    }
}

proof fn lemma_terminated_settles(
    tier: Seq<PhoneView>,
    boundaries: Seq<(i64, SilOrigin)>,
    k: int,
)
    requires
        tier.len() > 0,
        0 <= k < boundaries.len(),
    ensures
        terminated(tier, boundaries).len() > 0,
        settled(terminated(tier, boundaries), boundaries[k].0 as int),
    decreases boundaries.len(),
{
    let before = boundaries.drop_last();
    let (t, origin) = (boundaries.last().0 as int, boundaries.last().1);
    lemma_terminated_nonempty(tier, before);
    let u = boundaries[k].0 as int;
    lemma_terminated_at_settles(terminated(tier, before), t, origin, u);
    if k < before.len() {
        lemma_terminated_settles(tier, before, k);
        assert(before[k] == boundaries[k]);
    }
}

proof fn lemma_terminated_nonempty(tier: Seq<PhoneView>, boundaries: Seq<(i64, SilOrigin)>)
    requires
        tier.len() > 0,
    ensures
        terminated(tier, boundaries).len() > 0,
    decreases boundaries.len(),
{
    if boundaries.len() > 0 {
        lemma_terminated_nonempty(tier, boundaries.drop_last());
        lemma_terminated_at_settles(
            terminated(tier, boundaries.drop_last()),
            boundaries.last().0 as int,
            boundaries.last().1,
            0,
        );
    }
}

proof fn lemma_settled_stay(tier: Seq<PhoneView>, boundaries: Seq<(i64, SilOrigin)>)
    requires
        forall|k: int|
            0 <= k < boundaries.len() ==> settled(tier, (#[trigger] boundaries[k]).0 as int),
    ensures
        terminated(tier, boundaries) == tier,
    decreases boundaries.len(),
{
    if boundaries.len() > 0 {
        let before = boundaries.drop_last();
        assert forall|k: int| 0 <= k < before.len() implies settled(
            tier,
            (#[trigger] before[k]).0 as int,
        ) by {
            assert(before[k] == boundaries[k]);
        }
        lemma_settled_stay(tier, before);
        assert(settled(tier, boundaries[boundaries.len() - 1].0 as int));
    }
}

/// A second pass over the same boundaries adds nothing.
pub proof fn law_second_pass_adds_nothing(
    tier: Seq<PhoneView>,
    boundaries: Seq<(i64, SilOrigin)>,
)
    ensures
        terminated(terminated(tier, boundaries), boundaries) == terminated(tier, boundaries),
{
    if tier.len() == 0 {
        lemma_nothing_to_terminate(tier, boundaries);
    } else {
        let out = terminated(tier, boundaries);
        assert forall|k: int| 0 <= k < boundaries.len() implies settled(
            out,
            (#[trigger] boundaries[k]).0 as int,
        ) by {
            lemma_terminated_settles(tier, boundaries, k);
        }
        lemma_settled_stay(out, boundaries);
    }
}

proof fn lemma_nothing_to_terminate(tier: Seq<PhoneView>, boundaries: Seq<(i64, SilOrigin)>)
    requires
        tier.len() == 0,
    ensures
        terminated(tier, boundaries) == tier,
    decreases boundaries.len(),
{
    if boundaries.len() > 0 {
        lemma_nothing_to_terminate(tier, boundaries.drop_last());
    }
}

/// The rows that were not added, in order.
pub open spec fn kept_rows(rows: Seq<PhoneView>, added: Seq<bool>) -> Seq<PhoneView>
    decreases rows.len(),
{
    if rows.len() == 0 {
        Seq::empty()
    } else if added[rows.len() - 1] {
        kept_rows(rows.drop_last(), added)
    } else {
        kept_rows(rows.drop_last(), added).push(rows.last())
    }
}

proof fn lemma_kept_rows_insert(
    rows: Seq<PhoneView>,
    added: Seq<bool>,
    at: int,
    row: PhoneView,
)
    requires
        0 <= at <= rows.len() <= added.len(),
    ensures
        kept_rows(rows.insert(at, row), added.insert(at, true)) == kept_rows(rows, added),
    decreases rows.len(),
{
    let (after, flags) = (rows.insert(at, row), added.insert(at, true));
    if at == rows.len() {
        assert(after.drop_last() =~= rows);
        lemma_kept_rows_flags(rows, flags, added);
    } else {
        assert(after.drop_last() =~= rows.drop_last().insert(at, row));
        assert(flags[after.len() - 1] == added[rows.len() - 1]);
        assert(after.last() == rows.last());
        lemma_kept_rows_insert(rows.drop_last(), added, at, row);
    }
}

proof fn lemma_kept_rows_flags(rows: Seq<PhoneView>, a: Seq<bool>, b: Seq<bool>)
    requires
        forall|i: int| 0 <= i < rows.len() ==> a[i] == #[trigger] b[i],
    ensures
        kept_rows(rows, a) == kept_rows(rows, b),
    decreases rows.len(),
{
    if rows.len() > 0 {
        assert(a[rows.len() - 1] == b[rows.len() - 1]);
        lemma_kept_rows_flags(rows.drop_last(), a, b);
    }
}

/// The rows of a tier after terminators went in: its own unchanged and in
/// order, and zero-length SIL rows at its edges.
spec fn rows_laid(tier: Seq<PhoneView>, out: Seq<PhoneView>, added: Seq<bool>) -> bool {
    &&& added.len() == out.len()
    &&& kept_rows(out, added) == tier
    &&& forall|j: int|
        #![trigger out[j]]
        0 <= j < out.len() ==> is_edge(tier, out[j].t_start) && is_edge(tier, out[j].t_end)
    &&& added_proper(out, added)
    &&& forall|q: int| 0 <= q < 2 * tier.len() ==> is_edge(out, #[trigger] edge_at(tier, q))
}

/// The added rows are SIL without extent.
spec fn added_proper(out: Seq<PhoneView>, added: Seq<bool>) -> bool {
    forall|j: int|
        #![trigger out[j]]
        0 <= j < out.len() && added[j] ==> out[j].sil() && out[j].t_start == out[j].t_end
}

/// The order of the rows after terminators went in: a terminator stands after
/// every row that starts before it.
spec fn order_laid(out: Seq<PhoneView>, added: Seq<bool>) -> bool {
    forall|i: int, j: int|
        #![trigger out[i], out[j]]
        0 <= i < j < out.len() ==> if added[j] {
            out[i].t_start < out[j].t_start - T_EPS
        } else if added[i] {
            out[i].t_start <= out[j].t_start + T_EPS
        } else {
            out[i].t_start <= out[j].t_start
        }
}

proof fn lemma_slot_splits(tier: Seq<PhoneView>, edge: int, from: int)
    requires
        0 <= from <= tier.len(),
    ensures
        forall|i: int|
            #![trigger tier[i]]
            from <= i < slot(tier, edge, from) ==> tier[i].t_start < edge - T_EPS,
        slot(tier, edge, from) < tier.len() ==> tier[slot(tier, edge, from)].t_start >= edge
            - T_EPS,
    decreases tier.len() - from,
{
    if from < tier.len() && tier[from].t_start < edge - T_EPS {
        lemma_slot_splits(tier, edge, from + 1);
    }
}

#[verifier::spinoff_prover]
#[verifier::rlimit(50)]
proof fn lemma_lay_row(
    tier: Seq<PhoneView>,
    out: Seq<PhoneView>,
    added: Seq<bool>,
    at: int,
    edge: int,
    origin: SilOrigin,
)
    requires
        rows_laid(tier, out, added),
        0 <= at <= out.len(),
        is_edge(tier, edge),
    ensures
        rows_laid(tier, out.insert(at, terminator(edge, origin)), added.insert(at, true)),
{
    let row = terminator(edge, origin);
    let (after, flags) = (out.insert(at, row), added.insert(at, true));
    lemma_kept_rows_insert(out, added, at, row);
    lemma_inserted_edges(out, at, row);
    assert forall|j: int| #![trigger after[j]] 0 <= j < after.len() implies is_edge(
        tier,
        after[j].t_start,
    ) && is_edge(tier, after[j].t_end) && (flags[j] ==> after[j].sil() && after[j].t_start
        == after[j].t_end) by {
        if j < at {
            assert(after[j] == out[j] && flags[j] == added[j]);
        } else if j > at {
            assert(after[j] == out[j - 1] && flags[j] == added[j - 1]);
        }
    }
    assert forall|q: int| 0 <= q < 2 * tier.len() implies is_edge(
        after,
        #[trigger] edge_at(tier, q),
    ) by {
        assert(is_edge(out, edge_at(tier, q)));
        let r = choose|r: int|
            0 <= r < 2 * out.len() && #[trigger] edge_at(out, r) == edge_at(tier, q);
        let image = if r < 2 * at {
            r
        } else {
            r + 2
        };
        assert(edge_at(after, image) == edge_at(out, r));
    }
}

proof fn lemma_beyond_slot(out: Seq<PhoneView>, added: Seq<bool>, edge: int, j: int)
    requires
        added_proper(out, added),
        order_laid(out, added),
        !touches_sil(out, edge),
        slot(out, edge, 0) <= j < out.len(),
    ensures
        added[j] ==> edge < out[j].t_start - T_EPS,
        edge <= out[j].t_start + T_EPS,
{
    let at = slot(out, edge, 0);
    lemma_slot_bounds(out, edge, 0);
    lemma_slot_splits(out, edge, 0);
    let (first, row) = (out[at], out[j]);
    assert(added[at] ==> first.t_start > edge + T_EPS);
    if added[j] {
        assert(row.sil() && row.t_start == row.t_end);
        assert(!(row.t_start - T_EPS <= edge <= row.t_end + T_EPS));
    }
    if j > at {
        assert(if added[j] {
            first.t_start < row.t_start - T_EPS
        } else if added[at] {
            first.t_start <= row.t_start + T_EPS
        } else {
            first.t_start <= row.t_start
        });
    }
}

proof fn lemma_lay_order(
    out: Seq<PhoneView>,
    added: Seq<bool>,
    edge: int,
    origin: SilOrigin,
)
    requires
        added.len() == out.len(),
        added_proper(out, added),
        order_laid(out, added),
        !touches_sil(out, edge),
    ensures
        0 <= slot(out, edge, 0) <= out.len(),
        order_laid(
            out.insert(slot(out, edge, 0), terminator(edge, origin)),
            added.insert(slot(out, edge, 0), true),
        ),
{
    let at = slot(out, edge, 0);
    lemma_slot_bounds(out, edge, 0);
    lemma_slot_splits(out, edge, 0);
    let (after, flags) = (out.insert(at, terminator(edge, origin)), added.insert(at, true));
    assert forall|i: int, j: int|
        #![trigger after[i], after[j]]
        0 <= i < j < after.len() implies if flags[j] {
        after[i].t_start < after[j].t_start - T_EPS
    } else if flags[i] {
        after[i].t_start <= after[j].t_start + T_EPS
    } else {
        after[i].t_start <= after[j].t_start
    } by {
        let a = if i < at {
            i
        } else {
            i - 1
        };
        let b = if j < at {
            j
        } else {
            j - 1
        };
        if i == at {
            lemma_beyond_slot(out, added, edge, b);
            assert(after[j] == out[b] && flags[j] == added[b]);
        } else if j == at {
            assert(after[i] == out[a] && out[a].t_start < edge - T_EPS);
        } else {
            assert(after[i] == out[a] && flags[i] == added[a]);
            assert(after[j] == out[b] && flags[j] == added[b]);
        }
    }
}

proof fn lemma_own_layout(tier: Seq<PhoneView>)
    requires
        in_time_order(tier),
    ensures
        rows_laid(tier, tier, Seq::new(tier.len(), |i: int| false)),
        order_laid(tier, Seq::new(tier.len(), |i: int| false)),
{
    let added = Seq::new(tier.len(), |i: int| false);
    lemma_all_kept(tier, added);
    assert forall|j: int| #![trigger tier[j]] 0 <= j < tier.len() implies is_edge(
        tier,
        tier[j].t_start,
    ) && is_edge(tier, tier[j].t_end) by {
        assert(edge_at(tier, 2 * j) == tier[j].t_start);
        assert(edge_at(tier, 2 * j + 1) == tier[j].t_end);
    }
    assert forall|i: int, j: int|
        #![trigger tier[i], tier[j]]
        0 <= i < j < tier.len() implies tier[i].t_start <= tier[j].t_start by {
        assert(no_later(tier[i], tier[j]));
    }
}

proof fn lemma_all_kept(rows: Seq<PhoneView>, added: Seq<bool>)
    requires
        forall|i: int| 0 <= i < rows.len() ==> !(#[trigger] added[i]),
    ensures
        kept_rows(rows, added) == rows,
    decreases rows.len(),
{
    if rows.len() > 0 {
        lemma_all_kept(rows.drop_last(), added);
        assert(rows.drop_last().push(rows.last()) =~= rows);
        assert(!added[rows.len() - 1]);
    } else {
        assert(rows =~= Seq::empty());
    }
}

proof fn lemma_laid_out(tier: Seq<PhoneView>, boundaries: Seq<(i64, SilOrigin)>) -> (added: Seq<
    bool,
>)
    requires
        tier.len() > 0,
        in_time_order(tier),
    ensures
        rows_laid(tier, terminated(tier, boundaries), added),
        order_laid(terminated(tier, boundaries), added),
        terminated(tier, boundaries).len() <= tier.len() + boundaries.len(),
    decreases boundaries.len(),
{
    if boundaries.len() == 0 {
        lemma_own_layout(tier);
        Seq::new(tier.len(), |i: int| false)
    } else {
        let before = boundaries.drop_last();
        let added = lemma_laid_out(tier, before);
        let out = terminated(tier, before);
        let (t, origin) = (boundaries.last().0 as int, boundaries.last().1);
        lemma_terminated_nonempty(tier, before);
        if settled(out, t) {
            added
        } else {
            let edge = nearest_edge(out, t);
            let at = slot(out, edge, 0);
            let p = lemma_nearest_edge(out, t);
            assert(is_edge(tier, out[p / 2].t_start) && is_edge(tier, out[p / 2].t_end));
            lemma_lay_order(out, added, edge, origin);
            lemma_lay_row(tier, out, added, at, edge, origin);
            added.insert(at, true)
        }
    }
}

/// Terminators only add to a tier. Its own rows stay, unchanged and in order;
/// each added row is a SIL without extent at one of their edges, at most one
/// for each boundary. Then every boundary, or an edge of theirs nearest to it,
/// is covered or touched by a SIL, and the rows still start in time order,
/// within the tolerance. Which rows were added is returned.
pub proof fn law_terminators_only_add(
    tier: Seq<PhoneView>,
    boundaries: Seq<(i64, SilOrigin)>,
) -> (added: Seq<bool>)
    requires
        tier.len() > 0,
        in_time_order(tier),
    ensures
        ({
            let out = terminated(tier, boundaries);
            &&& added.len() == out.len() <= tier.len() + boundaries.len()
            &&& kept_rows(out, added) == tier
            &&& forall|j: int|
                #![trigger out[j]]
                0 <= j < out.len() && added[j] ==> out[j].sil() && out[j].t_start == out[j].t_end
                    && is_edge(tier, out[j].t_start)
            &&& forall|k: int|
                #![trigger boundaries[k]]
                0 <= k < boundaries.len() ==> touches_sil(out, boundaries[k].0 as int) || exists|
                    x: int,
                |
                    #[trigger] is_nearest_edge(tier, x, boundaries[k].0 as int) && touches_sil(
                        out,
                        x,
                    )
            &&& forall|i: int, j: int|
                #![trigger out[i], out[j]]
                0 <= i <= j < out.len() ==> out[i].t_start <= out[j].t_start + T_EPS
        }),
{
    let added = lemma_laid_out(tier, boundaries);
    let out = terminated(tier, boundaries);
    assert forall|j: int| #![trigger out[j]] 0 <= j < out.len() && added[j] implies out[j].sil()
        && out[j].t_start == out[j].t_end && is_edge(tier, out[j].t_start) by {
    }
    assert forall|k: int| #![trigger boundaries[k]] 0 <= k < boundaries.len() implies touches_sil(
        out,
        boundaries[k].0 as int,
    ) || exists|x: int|
        #[trigger] is_nearest_edge(tier, x, boundaries[k].0 as int) && touches_sil(out, x) by {
        let t = boundaries[k].0 as int;
        lemma_terminated_settles(tier, boundaries, k);
        let x = nearest_edge(out, t);
        let p = lemma_nearest_edge(out, t);
        assert(is_edge(tier, out[p / 2].t_start) && is_edge(tier, out[p / 2].t_end));
        assert forall|q: int| 0 <= q < 2 * tier.len() implies distance(x, t) <= distance(
            #[trigger] edge_at(tier, q),
            t,
        ) by {
            assert(is_edge(out, edge_at(tier, q)));
            let r = choose|r: int|
                0 <= r < 2 * out.len() && #[trigger] edge_at(out, r) == edge_at(tier, q);
            assert(distance(edge_at(out, r), t) >= distance(edge_at(out, p), t));
        }
        assert(is_nearest_edge(tier, x, t));
    }
    added
}

// -------------------------------------------------------------------- merging

/// Whether SIL row `b` abuts or overlaps the SIL row `a` before it.
pub open spec fn abuts(a: PhoneView, b: PhoneView) -> bool {
    a.sil() && b.sil() && b.t_start <= a.t_end + T_EPS
}

/// Two abutting SIL rows as one: the first, up to the later end, with the
/// origin of higher precedence.
pub open spec fn merged_row(a: PhoneView, b: PhoneView) -> PhoneView {
    PhoneView {
        t_end: if a.t_end < b.t_end {
            b.t_end
        } else {
            a.t_end
        },
        kind: if b.origin()->0.rank() > a.origin()->0.rank() {
            b.kind
        } else {
            a.kind
        },
        ..a
    }
}

/// A tier with its abutting SIL rows merged.
pub open spec fn merged(tier: Seq<PhoneView>) -> Seq<PhoneView>
    decreases tier.len(),
{
    if tier.len() == 0 {
        Seq::empty()
    } else {
        let out = merged(tier.drop_last());
        let p = tier.last();
        if out.len() > 0 && abuts(out.last(), p) {
            out.drop_last().push(merged_row(out.last(), p))
        } else {
            out.push(p)
        }
    }
}

/// Merges consecutive and abutting SIL rows: SIL-SIL is never a unit. The
/// merged row keeps the highest-precedence origin.
pub fn merge_sil_runs(tier: Vec<TierPhone>) -> (out: Vec<TierPhone>)
    ensures
        tier_views(out@) == merged(tier_views(tier@)),
{
    let ghost all = tier_views(tier@);
    let mut out: Vec<TierPhone> = Vec::new();
    let mut i: usize = 0;
    assert(all.take(0) =~= Seq::empty());
    assert(tier_views(out@) =~= Seq::empty());
    while i < tier.len()
        invariant
            i <= tier@.len(),
            all == tier_views(tier@),
            tier_views(out@) == merged(all.take(i as int)),
        decreases tier@.len() - i,
    {
        let p: &TierPhone = &tier[i];
        let ghost before = tier_views(out@);
        proof {
            assert(all.take(i + 1).drop_last() =~= all.take(i as int));
            assert(all.take(i + 1).last() == p@);
        }
        let n: usize = out.len();
        let joins: bool = n > 0 && out[n - 1].is_sil() && p.is_sil() && p.t_start as i128
            <= out[n - 1].t_end as i128 + T_EPS as i128;
        if joins {
            assert(before.last() == out@[n - 1]@);
            match out.pop() {
                Some(last) => {
                    let mut last: TierPhone = last;
                    if last.t_end < p.t_end {
                        last.t_end = p.t_end;
                    }
                    match (p.sil_origin(), last.sil_origin()) {
                        (Some(new), Some(old_origin)) => {
                            if new.precedence() > old_origin.precedence() {
                                last.kind = Kind::Sil(new);
                            }
                        },
                        _ => {},
                    }
                    let ghost row = last@;
                    out.push(last);
                    assert(row == merged_row(before.last(), p@));
                    assert(tier_views(out@) =~= before.drop_last().push(row));
                },
                None => {},
            }
        } else {
            proof {
                if n > 0 {
                    assert(before.last() == out@[n - 1]@);
                }
            }
            out.push(p.clone());
            assert(tier_views(out@) =~= before.push(p@));
        }
        i = i + 1;
    }
    assert(all.take(i as int) =~= all);
    out
}

/// After merging, no SIL row abuts the SIL row before it.
pub proof fn law_no_abutting_sil_remains(tier: Seq<PhoneView>)
    ensures
        forall|i: int, j: int|
            #![trigger merged(tier)[i], merged(tier)[j]]
            0 <= i && j == i + 1 && j < merged(tier).len() ==> !abuts(
                merged(tier)[i],
                merged(tier)[j],
            ),
    decreases tier.len(),
{
    if tier.len() > 0 {
        law_no_abutting_sil_remains(tier.drop_last());
        let before = merged(tier.drop_last());
        let out = merged(tier);
        assert forall|i: int, j: int|
            #![trigger out[i], out[j]]
            0 <= i && j == i + 1 && j < out.len() implies !abuts(out[i], out[j]) by {
            if j < before.len() {
                assert(out[i] == before[i]);
                assert(!abuts(before[i], before[j]));
            } else {
                assert(out[i] == before[i]);
            }
        }
    }
}

/// Merging again changes nothing.
pub proof fn law_merging_again_changes_nothing(tier: Seq<PhoneView>)
    ensures
        merged(merged(tier)) == merged(tier),
{
    law_no_abutting_sil_remains(tier);
    lemma_nothing_to_merge(merged(tier));
}

proof fn lemma_nothing_to_merge(tier: Seq<PhoneView>)
    requires
        forall|i: int, j: int|
            #![trigger tier[i], tier[j]]
            0 <= i && j == i + 1 && j < tier.len() ==> !abuts(tier[i], tier[j]),
    ensures
        merged(tier) == tier,
    decreases tier.len(),
{
    if tier.len() > 0 {
        let before = tier.drop_last();
        assert forall|i: int, j: int|
            #![trigger before[i], before[j]]
            0 <= i && j == i + 1 && j < before.len() implies !abuts(before[i], before[j]) by {
            assert(!abuts(tier[i], tier[j]));
        }
        lemma_nothing_to_merge(before);
        if before.len() > 0 {
            assert(!abuts(tier[tier.len() - 2], tier[tier.len() - 1]));
        }
        assert(before.push(tier.last()) =~= tier);
    } else {
        assert(merged(tier) =~= tier);
    }
}

/// The rows of a tier that each merged row is made of, as ranges.
pub open spec fn sil_runs(tier: Seq<PhoneView>) -> Seq<(int, int)>
    decreases tier.len(),
{
    if tier.len() == 0 {
        Seq::empty()
    } else {
        let before = tier.drop_last();
        let (rows, runs) = (merged(before), sil_runs(before));
        let n = tier.len() as int;
        if rows.len() > 0 && abuts(rows.last(), tier.last()) {
            runs.drop_last().push((runs.last().0, n))
        } else {
            runs.push((n - 1, n))
        }
    }
}

/// Whether a row stands for a run of rows: it begins where the first of them
/// does and reaches to the latest end of any. A run of several is of SIL rows,
/// and the row has the origin of one of them, of no lower precedence than any;
/// a row on its own stands as it is.
pub open spec fn stands_for(row: PhoneView, tier: Seq<PhoneView>, run: (int, int)) -> bool {
    let (from, to) = run;
    &&& 0 <= from < to <= tier.len()
    &&& row.t_start == tier[from].t_start
    &&& forall|k: int| #![trigger tier[k]] from <= k < to ==> tier[k].t_end <= row.t_end
    &&& exists|k: int| #![trigger tier[k]] from <= k < to && tier[k].t_end == row.t_end
    &&& exists|k: int| #![trigger tier[k]] from <= k < to && tier[k].kind == row.kind
    &&& to - from > 1 ==> row.sil() && forall|k: int|
        #![trigger tier[k]]
        from <= k < to ==> tier[k].sil() && tier[k].origin()->0.rank() <= row.origin()->0.rank()
    &&& to - from == 1 ==> row == tier[from]
}

/// A merged row runs from its run's first start to its latest end, with the
/// origin of highest precedence; the runs cover the tier, in order.
pub proof fn law_merged_rows_span_their_runs(tier: Seq<PhoneView>)
    ensures
        sil_runs(tier).len() == merged(tier).len(),
        forall|i: int|
            #![trigger sil_runs(tier)[i]]
            0 <= i < merged(tier).len() ==> stands_for(merged(tier)[i], tier, sil_runs(tier)[i]),
        forall|i: int, j: int|
            #![trigger sil_runs(tier)[i], sil_runs(tier)[j]]
            0 <= i && j == i + 1 && j < merged(tier).len() ==> sil_runs(tier)[i].1 == sil_runs(
                tier,
            )[j].0,
        tier.len() > 0 ==> merged(tier).len() > 0 && sil_runs(tier)[0].0 == 0 && sil_runs(
            tier,
        ).last().1 == tier.len(),
    decreases tier.len(),
{
    if tier.len() > 0 {
        let before = tier.drop_last();
        law_merged_rows_span_their_runs(before);
        let (old_rows, old_runs) = (merged(before), sil_runs(before));
        let (rows, runs) = (merged(tier), sil_runs(tier));
        let n = tier.len() as int;
        assert forall|i: int| #![trigger runs[i]] 0 <= i < rows.len() implies stands_for(
            rows[i],
            tier,
            runs[i],
        ) by {
            if i < old_rows.len() && rows[i] == old_rows[i] && runs[i] == old_runs[i] {
                assert(stands_for(old_rows[i], before, old_runs[i]));
                lemma_stands_for_grown(old_rows[i], tier, old_runs[i]);
            } else if i < old_rows.len() {
                assert(stands_for(old_rows[i], before, old_runs[i]));
                lemma_run_grows(old_rows[i], tier, old_runs[i]);
            } else {
                assert(tier[n - 1] == rows[i]);
            }
        }
        if before.len() == 0 {
            assert(old_rows.len() == 0);
        }
    }
}

proof fn lemma_stands_for_grown(row: PhoneView, tier: Seq<PhoneView>, run: (int, int))
    requires
        tier.len() > 0,
        stands_for(row, tier.drop_last(), run),
    ensures
        stands_for(row, tier, run),
{
    let before = tier.drop_last();
    let (from, to) = run;
    assert forall|k: int| #![trigger tier[k]] from <= k < to implies tier[k] == before[k] by {}
    let a = choose|k: int| #![trigger before[k]] from <= k < to && before[k].t_end == row.t_end;
    let b = choose|k: int| #![trigger before[k]] from <= k < to && before[k].kind == row.kind;
    assert(tier[a].t_end == row.t_end);
    assert(tier[b].kind == row.kind);
}

proof fn lemma_run_grows(row: PhoneView, tier: Seq<PhoneView>, run: (int, int))
    requires
        tier.len() > 0,
        run.1 == tier.len() - 1,
        stands_for(row, tier.drop_last(), run),
        abuts(row, tier.last()),
    ensures
        stands_for(merged_row(row, tier.last()), tier, (run.0, tier.len() as int)),
{
    lemma_stands_for_grown(row, tier, run);
    let (from, to) = run;
    let p = tier.last();
    assert(tier[to] == p);
    let a = choose|k: int| #![trigger tier[k]] from <= k < to && tier[k].t_end == row.t_end;
    let b = choose|k: int| #![trigger tier[k]] from <= k < to && tier[k].kind == row.kind;
    let out = merged_row(row, p);
    assert(out.t_end == tier[a].t_end || out.t_end == tier[to].t_end);
    assert(out.kind == tier[b].kind || out.kind == tier[to].kind);
    assert(tier[from].sil() && (to - from == 1 ==> tier[from] == row));
}

// ------------------------------------------------------------------ cut points

/// The last row before `i` that is not NOISE, or -1.
pub open spec fn prev_row(tier: Seq<PhoneView>, i: int) -> int
    decreases i,
{
    if i <= 0 {
        -1
    } else if !tier[i - 1].noise() {
        i - 1
    } else {
        prev_row(tier, i - 1)
    }
}

/// Whether the row before `i` is an audible silence within the adjacency gap.
pub open spec fn sil_preceded(tier: Seq<PhoneView>, i: int) -> bool {
    let j = prev_row(tier, i);
    j >= 0 && tier[j].sil() && !tier[j].zero_extent() && tier[i].t_start - tier[j].t_end
        <= ADJACENCY_GAP_MAX + T_EPS
}

/// The normative cut-point table: a stop or affricate cuts a fifth into the
/// phone, inside the closure, or at its start where silence precedes it (the
/// closure belongs to the silence, and the burst stays whole); every other
/// phone cuts in its middle.
pub open spec fn cut_of(tier: Seq<PhoneView>, i: int) -> int {
    let p = tier[i];
    if p.kind->Real_class == CutClass::StopOrAffricate {
        if sil_preceded(tier, i) {
            p.t_start
        } else {
            p.t_start + (p.t_end - p.t_start) / 5
        }
    } else {
        p.t_start + (p.t_end - p.t_start) / 2
    }
}

/// A tier with the cut points of its real phones.
pub open spec fn with_cuts(tier: Seq<PhoneView>) -> Seq<PhoneView> {
    Seq::new(
        tier.len(),
        |i: int|
            PhoneView {
                cut_t: if tier[i].speech() {
                    Some(cut_of(tier, i) as i64)
                } else {
                    tier[i].cut_t
                },
                ..tier[i]
            },
    )
}

/// Assigns `cut_t` by the cut-point table. The silence-preceded-stop exception
/// is evaluated with NOISE rows excised, as adjacency is.
pub fn assign_cut_points(tier: &mut Vec<TierPhone>)
    requires
        tier_proper(tier_views(old(tier)@)),
    ensures
        tier_views(final(tier)@) == with_cuts(tier_views(old(tier)@)),
{
    let ghost start = tier_views(tier@);
    let ghost done = with_cuts(start);
    let mut prev: Option<usize> = None;
    let mut i: usize = 0;
    while i < tier.len()
        invariant
            i <= tier@.len(),
            tier_proper(start),
            done == with_cuts(start),
            tier@.len() == start.len(),
            prev == (if prev_row(start, i as int) < 0 {
                None::<usize>
            } else {
                Some(prev_row(start, i as int) as usize)
            }),
            prev_row(start, i as int) < i,
            forall|j: int| #![trigger tier@[j]] 0 <= j < i ==> tier@[j]@ == done[j],
            forall|j: int| #![trigger tier@[j]] i <= j < tier@.len() ==> tier@[j]@ == start[j],
        decreases tier@.len() - i,
    {
        let ghost before = tier@;
        assert(tier@[i as int]@ == start[i as int]);
        let class: Option<CutClass> = match &tier[i].kind {
            Kind::Real { class, .. } => Some(*class),
            _ => None,
        };
        match class {
            Some(class) => {
                let t_start: i64 = tier[i].t_start;
                let len: i128 = tier[i].duration();
                let cut: i64 = if class == CutClass::StopOrAffricate {
                    let silent: bool = match prev {
                        Some(j) => {
                            assert(tier@[j as int]@ == done[j as int]);
                            tier[j].is_sil() && !tier[j].is_zero_extent() && t_start as i128
                                - tier[j].t_end as i128 <= ADJACENCY_GAP_MAX as i128
                                + T_EPS as i128
                        },
                        None => false,
                    };
                    if silent {
                        t_start
                    } else {
                        (t_start as i128 + len / 5) as i64
                    }
                } else {
                    (t_start as i128 + len / 2) as i64
                };
                assert(cut == cut_of(start, i as int));
                tier[i].cut_t = Some(cut);
            },
            None => {},
        }
        assert(tier@[i as int]@ == done[i as int]);
        if !tier[i].is_noise() {
            prev = Some(i);
        }
        i = i + 1;
    }
    assert(tier_views(tier@) =~= done);
}

/// A cut point lies inside its phone.
pub proof fn law_cut_points_lie_inside(tier: Seq<PhoneView>, i: int)
    requires
        tier_proper(tier),
        0 <= i < tier.len(),
        tier[i].speech(),
    ensures
        tier[i].t_start <= cut_of(tier, i) <= tier[i].t_end,
{
}

/// Terminating, merging and cutting keep a tier proper.
pub proof fn lemma_proper_kept(tier: Seq<PhoneView>, boundaries: Seq<(i64, SilOrigin)>)
    requires
        tier_proper(tier),
    ensures
        tier_proper(terminated(tier, boundaries)),
        tier_proper(merged(tier)),
        tier_proper(with_cuts(tier)),
    decreases boundaries.len(), tier.len(),
{
    if boundaries.len() > 0 {
        lemma_proper_kept(tier, boundaries.drop_last());
        let before = terminated(tier, boundaries.drop_last());
        let (t, origin) = (boundaries.last().0 as int, boundaries.last().1);
        let edge = nearest_edge(before, t);
        lemma_slot_bounds(before, edge, 0);
        let after = terminated_at(before, t, origin);
        assert forall|i: int| #![trigger after[i]] 0 <= i < after.len() implies after[i].t_start
            <= after[i].t_end by {
            if after.len() > before.len() {
                let at = slot(before, edge, 0);
                if i < at {
                    assert(after[i] == before[i]);
                } else if i > at {
                    assert(after[i] == before[i - 1]);
                }
            }
        }
    }
    lemma_merged_proper(tier);
    let cuts = with_cuts(tier);
    assert forall|i: int| #![trigger cuts[i]] 0 <= i < cuts.len() implies cuts[i].t_start
        <= cuts[i].t_end by {
        assert(tier[i].t_start <= tier[i].t_end);
    }
}

proof fn lemma_merged_proper(tier: Seq<PhoneView>)
    requires
        tier_proper(tier),
    ensures
        tier_proper(merged(tier)),
    decreases tier.len(),
{
    if tier.len() > 0 {
        let before = tier.drop_last();
        assert forall|i: int| #![trigger before[i]] 0 <= i < before.len() implies before[i].t_start
            <= before[i].t_end by {
            assert(tier[i].t_start <= tier[i].t_end);
        }
        lemma_merged_proper(before);
        let (a, out) = (merged(before), merged(tier));
        assert(tier[tier.len() - 1].t_start <= tier[tier.len() - 1].t_end);
        assert forall|i: int| #![trigger out[i]] 0 <= i < out.len() implies out[i].t_start
            <= out[i].t_end by {
            if i < a.len() {
                assert(a[i].t_start <= a[i].t_end);
            }
        }
    }
}

proof fn lemma_rows_proper(ps: Seq<Phoneme>)
    requires
        rows_of(ps) is Ok,
    ensures
        tier_proper(rows_of(ps)->Ok_0),
    decreases ps.len(),
{
    if ps.len() > 0 {
        lemma_rows_proper(ps.drop_last());
        let (a, b) = (rows_of(ps.drop_last())->Ok_0, rows_of(ps)->Ok_0);
        assert forall|i: int| #![trigger b[i]] 0 <= i < b.len() implies b[i].t_start
            <= b[i].t_end by {
            if i < a.len() {
                assert(b[i] == a[i]);
            }
        }
    }
}

proof fn lemma_with_row_proper(tier: Seq<PhoneView>, row: PhoneView)
    requires
        tier_proper(tier),
        row.t_start <= row.t_end,
    ensures
        tier_proper(with_row(tier, row)),
    decreases tier.len(),
{
    if tier.len() > 0 && !no_later(tier.last(), row) {
        let before = tier.drop_last();
        assert forall|i: int| #![trigger before[i]] 0 <= i < before.len() implies before[i].t_start
            <= before[i].t_end by {
            assert(tier[i].t_start <= tier[i].t_end);
        }
        lemma_with_row_proper(before, row);
        let (a, b) = (with_row(before, row), with_row(tier, row));
        assert(tier[tier.len() - 1].t_start <= tier[tier.len() - 1].t_end);
        assert forall|i: int| #![trigger b[i]] 0 <= i < b.len() implies b[i].t_start
            <= b[i].t_end by {
            if i < a.len() {
                assert(b[i] == a[i]);
            }
        }
    }
}

proof fn lemma_ordered_proper(rows: Seq<PhoneView>)
    requires
        tier_proper(rows),
    ensures
        tier_proper(ordered(rows)),
    decreases rows.len(),
{
    if rows.len() > 0 {
        let before = rows.drop_last();
        assert forall|i: int| #![trigger before[i]] 0 <= i < before.len() implies before[i].t_start
            <= before[i].t_end by {
            assert(rows[i].t_start <= rows[i].t_end);
        }
        lemma_ordered_proper(before);
        assert(rows[rows.len() - 1].t_start <= rows[rows.len() - 1].t_end);
        lemma_with_row_proper(ordered(before), rows.last());
    }
}

/// A built tier is proper.
pub proof fn lemma_tier_proper(ps: Seq<Phoneme>)
    requires
        tier_of(ps) is Ok,
    ensures
        tier_proper(tier_of(ps)->Ok_0),
{
    lemma_rows_proper(ps);
    lemma_ordered_proper(rows_of(ps)->Ok_0);
}

// ---------------------------------------------------------------------- laws

/// A label that is understood is stored as it was given: its base and its
/// stress mark make it up again, and only a final 0, 1 or 2 is a mark.
pub proof fn law_labels_are_stored_as_given(label: Seq<char>, row: PhoneView)
    requires
        kind_of(label) == Some(row.kind),
    ensures
        row.label_text() == label,
        row.kind is Real ==> (row.kind->stress is Some <==> label.len() > 0 && '0' <= label.last()
            <= '2'),
        row.kind is Real ==> row.kind->class == class_of(row.kind->base)->0,
        row.kind is Sil <==> label == "SIL"@,
        label == "NOISE"@ <==> row.kind is Noise,
        row.kind is Sil ==> row.kind == KindView::Sil(SilOrigin::Mfa),
{
    reveal_strlit("SIL");
    reveal_strlit("NOISE");
    assert("SIL"@ != "NOISE"@) by {
        assert("SIL"@.len() != "NOISE"@.len());
    }
    if row.kind is Real && row.kind->stress is Some {
        let d = row.kind->stress->0 as int;
        assert(0 <= d <= 2);
        assert(signed_dec(d) == seq![crate::text::digit(d)]);
        assert(crate::text::digit(d) == label.last());
        assert(row.label_text() =~= label);
    }
}

/// A row keeps its phoneme's interval, label, word and confidence; only speech
/// belongs to a word, and nothing is cut yet.
pub proof fn law_rows_keep_their_phoneme(p: Phoneme)
    ensures
        match row_of(p) {
            Ok(row) => {
                &&& p.start == Real::Nano(row.t_start as i64)
                &&& p.end == Real::Nano(row.t_end as i64)
                &&& row.t_start <= row.t_end
                &&& row.label_text() == p.label@
                &&& row.confidence == p.confidence
                &&& row.cut_t is None
                &&& row.kind is Real ==> row.word_index == p.word_index && row.t_end - row.t_start
                    > 1
                &&& !(row.kind is Real) ==> row.word_index is None
            },
            Err(_) => {
                ||| !(p.start is Nano) || !(p.end is Nano)
                ||| p.end.nanos() < p.start.nanos()
                ||| kind_of(p.label@) is None
                ||| p.end.nanos() - p.start.nanos() <= 1 && p.label@ != "SIL"@ && p.label@
                    != "NOISE"@
            },
        },
{
    match row_of(p) {
        Ok(row) => law_labels_are_stored_as_given(p.label@, row),
        Err(_) => {},
    }
}

proof fn lemma_rows(ps: Seq<Phoneme>)
    ensures
        rows_of(ps) matches Ok(rows) ==> rows.len() == ps.len() && forall|i: int|
            #![trigger rows[i]]
            0 <= i < rows.len() ==> row_of(ps[i]) == Ok::<PhoneView, CorpusFault>(rows[i]),
    decreases ps.len(),
{
    if ps.len() > 0 {
        lemma_rows(ps.drop_last());
    }
}

/// A tier that is accepted has one row for each phoneme, and no row starts
/// before the one in front of it ends, within the tolerance.
pub proof fn law_accepted_tiers_do_not_overlap(ps: Seq<Phoneme>)
    ensures
        tier_of(ps) matches Ok(tier) ==> {
            &&& tier.len() == ps.len()
            &&& forall|i: int, j: int|
                #![trigger tier[i], tier[j]]
                0 <= i && j == i + 1 && j < tier.len() ==> tier[j].t_start >= tier[i].t_end - 1
        },
{
    if tier_of(ps) is Ok {
        let tier = tier_of(ps)->Ok_0;
        let rows = rows_of(ps)->Ok_0;
        lemma_rows(ps);
        law_tier_is_ordered(rows);
        broadcast use vstd::seq_lib::group_to_multiset_ensures;
        assert(tier.len() == tier.to_multiset().len());
        assert(rows.len() == rows.to_multiset().len());
        assert forall|i: int, j: int|
            #![trigger tier[i], tier[j]]
            0 <= i && j == i + 1 && j < tier.len() implies tier[j].t_start >= tier[i].t_end - 1 by {
            lemma_no_overlap(tier, 1, j);
        }
    }
}

proof fn lemma_no_overlap(tier: Seq<PhoneView>, from: int, j: int)
    requires
        1 <= from <= j < tier.len(),
        first_overlap(tier, from) >= tier.len(),
    ensures
        !overlaps(tier[j - 1], tier[j]),
    decreases tier.len() - from,
{
    if from < j {
        lemma_no_overlap(tier, from + 1, j);
    }
}

/// Whether the last row before `i` that is not noise is a silence with extent,
/// at most twenty milliseconds before (and a nanosecond).
pub open spec fn after_silence(tier: Seq<PhoneView>, i: int) -> bool {
    exists|j: int|
        {
            &&& 0 <= j < i
            &&& (#[trigger] tier[j]).kind is Sil
            &&& forall|k: int| j < k < i ==> (#[trigger] tier[k]).kind is Noise
            &&& tier[j].t_end - tier[j].t_start > 1
            &&& tier[i].t_start - tier[j].t_end <= 20_000_001
        }
}

proof fn lemma_prev_row(tier: Seq<PhoneView>, i: int)
    requires
        0 <= i <= tier.len(),
    ensures
        ({
            let j = prev_row(tier, i);
            &&& -1 <= j < i || (i == 0 && j == -1)
            &&& j >= 0 ==> !tier[j].noise()
            &&& forall|k: int| j < k < i ==> (#[trigger] tier[k]).noise()
        }),
    decreases i,
{
    if i > 0 && tier[i - 1].noise() {
        lemma_prev_row(tier, i - 1);
    }
}

/// Where a phone is cut: a stop or affricate right after a silence at its start,
/// any other a fifth into it, and every other phone in the middle, to the
/// nanosecond. The cut is the only thing that is added, and only to speech.
pub proof fn law_phones_are_cut_by_the_table(tier: Seq<PhoneView>, i: int)
    requires
        tier_proper(tier),
        0 <= i < tier.len(),
        i64::MIN <= tier[i].t_start,
        tier[i].t_end <= i64::MAX,
    ensures
        ({
            let out = with_cuts(tier);
            let (p, q) = (tier[i], out[i]);
            let len = p.t_end - p.t_start;
            &&& out.len() == tier.len()
            &&& q == PhoneView { cut_t: q.cut_t, ..p }
            &&& !(p.kind is Real) ==> q.cut_t == p.cut_t
            &&& p.kind is Real ==> q.cut_t is Some && ({
                let cut = q.cut_t->0 - p.t_start;
                if p.kind->class == CutClass::StopOrAffricate {
                    if after_silence(tier, i) {
                        cut == 0
                    } else {
                        5 * cut <= len < 5 * cut + 5
                    }
                } else {
                    2 * cut <= len < 2 * cut + 2
                }
            })
        }),
{
    lemma_prev_row(tier, i);
    let j = prev_row(tier, i);
    if sil_preceded(tier, i) {
        assert(tier[j].kind is Sil);
        assert(after_silence(tier, i));
    } else if after_silence(tier, i) {
        let s = choose|s: int|
            {
                &&& 0 <= s < i
                &&& (#[trigger] tier[s]).kind is Sil
                &&& forall|k: int| s < k < i ==> (#[trigger] tier[k]).kind is Noise
                &&& tier[s].t_end - tier[s].t_start > 1
                &&& tier[i].t_start - tier[s].t_end <= 20_000_001
            };
        if j > s {
            assert(tier[j].kind is Noise);
        } else if s > j {
            assert(tier[s].noise());
        }
    }
    if tier[i].speech() {
        law_cut_points_lie_inside(tier, i);
    }
}

/// What one boundary does: nothing where a silence covers or touches it, or the
/// row edge nearest to it, to a nanosecond; elsewhere a silence without extent, of
/// the boundary's origin, is put in at that edge, in front of the first row that
/// starts there or later.
pub proof fn law_a_boundary_is_terminated_once(tier: Seq<PhoneView>, t: int, origin: SilOrigin)
    requires
        tier.len() > 0,
        tier_proper(tier),
    ensures
        ({
            let edge = nearest_edge(tier, t);
            let out = terminated_at(tier, t, origin);
            let near = |x: int|
                exists|i: int|
                    #![trigger tier[i]]
                    0 <= i < tier.len() && tier[i].kind is Sil && tier[i].t_start - 1 <= x
                        <= tier[i].t_end + 1;
            &&& is_nearest_edge(tier, edge, t)
            &&& near(t) || near(edge) ==> out == tier
            &&& !near(t) && !near(edge) ==> exists|at: int|
                {
                    &&& 0 <= at <= tier.len()
                    &&& #[trigger] tier.insert(at, out[at]) == out
                    &&& out[at].kind == KindView::Sil(origin)
                    &&& out[at].t_start == edge
                    &&& out[at].t_end == edge
                    &&& forall|k: int| #![trigger tier[k]] 0 <= k < at ==> tier[k].t_start < edge - 1
                    &&& at < tier.len() ==> tier[at].t_start >= edge - 1
                }
        }),
{
    let edge = nearest_edge(tier, t);
    let out = terminated_at(tier, t, origin);
    let p = lemma_nearest_edge(tier, t);
    assert(is_edge(tier, edge));
    lemma_slot_bounds(tier, edge, 0);
    lemma_slot_is_first(tier, edge, 0);
    if !touches_sil(tier, t) && !touches_sil(tier, edge) {
        let at = slot(tier, edge, 0);
        assert(out[at] == terminator(edge, origin));
        assert(tier.insert(at, out[at]) == out);
    }
}

proof fn lemma_slot_is_first(tier: Seq<PhoneView>, edge: int, from: int)
    requires
        0 <= from <= tier.len(),
    ensures
        forall|k: int|
            #![trigger tier[k]]
            from <= k < slot(tier, edge, from) ==> tier[k].t_start < edge - 1,
        slot(tier, edge, from) < tier.len() ==> tier[slot(tier, edge, from)].t_start >= edge - 1,
    decreases tier.len() - from,
{
    if from < tier.len() && tier[from].t_start < edge - T_EPS {
        lemma_slot_is_first(tier, edge, from + 1);
    }
}

/// Only abutting silences merge: each row of a run but the first begins no later
/// than a nanosecond after the end of one before it in the run. Silences that
/// remain next to each other are further apart.
pub proof fn law_only_abutting_silences_merge(tier: Seq<PhoneView>)
    ensures
        forall|i: int, k: int|
            #![trigger sil_runs(tier)[i], tier[k]]
            0 <= i < sil_runs(tier).len() && sil_runs(tier)[i].0 < k < sil_runs(tier)[i].1
                ==> follows_on(tier, sil_runs(tier)[i].0, k),
        forall|i: int, j: int|
            #![trigger merged(tier)[i], merged(tier)[j]]
            0 <= i && j == i + 1 && j < merged(tier).len() && merged(tier)[i].kind is Sil && merged(
                tier,
            )[j].kind is Sil ==> merged(tier)[j].t_start > merged(tier)[i].t_end + 1,
    decreases tier.len(),
{
    law_no_abutting_sil_remains(tier);
    assert forall|i: int, j: int|
        #![trigger merged(tier)[i], merged(tier)[j]]
        0 <= i && j == i + 1 && j < merged(tier).len() && merged(tier)[i].kind is Sil && merged(
            tier,
        )[j].kind is Sil implies merged(tier)[j].t_start > merged(tier)[i].t_end + 1 by {
        assert(!abuts(merged(tier)[i], merged(tier)[j]));
    }
    if tier.len() > 0 {
        let before = tier.drop_last();
        law_only_abutting_silences_merge(before);
        law_merged_rows_span_their_runs(before);
        let (rows, old_runs, runs) = (merged(before), sil_runs(before), sil_runs(tier));
        let n = tier.len() as int;
        assert forall|i: int, k: int|
            #![trigger runs[i], tier[k]]
            0 <= i < runs.len() && runs[i].0 < k < runs[i].1 implies follows_on(
            tier,
            runs[i].0,
            k,
        ) by {
            if k < n - 1 {
                assert(i < old_runs.len());
                assert(stands_for(rows[i], before, old_runs[i]));
                assert(old_runs[i].0 == runs[i].0 && k < old_runs[i].1);
                assert(before[k] == tier[k]);
                assert(follows_on(before, old_runs[i].0, k));
                let j = choose|j: int|
                    #![trigger before[j]]
                    old_runs[i].0 <= j < k && before[k].t_start <= before[j].t_end + 1;
                assert(tier[j] == before[j]);
            } else {
                assert(i == old_runs.len() - 1);
                assert(stands_for(rows[i], before, old_runs[i]));
                let j = choose|j: int|
                    #![trigger before[j]]
                    old_runs[i].0 <= j < old_runs[i].1 && before[j].t_end == rows[i].t_end;
                assert(tier[j] == before[j]);
            }
        }
    }
}

/// Whether a row begins no later than a nanosecond after the end of one of those
/// before it, from the given one on.
pub open spec fn follows_on(tier: Seq<PhoneView>, from: int, k: int) -> bool {
    exists|j: int| #![trigger tier[j]] from <= j < k && tier[k].t_start <= tier[j].t_end + 1
}

/// What the aligner heard outranks a change of speaker, and that an edge of a
/// chunk.
pub proof fn law_acoustic_silences_outrank()
    ensures
        SilOrigin::Mfa.rank() > SilOrigin::Turn.rank() > SilOrigin::Chunk.rank(),
{
}

/// The sounds that are made by a stop and its release.
pub open spec fn is_stop(base: Seq<char>) -> bool {
    base == "B"@ || base == "D"@ || base == "G"@ || base == "K"@ || base == "P"@ || base == "T"@
        || base == "CH"@ || base == "JH"@
}

/// The sounds of friction, a nasal or a liquid among them not.
pub open spec fn is_fricative(base: Seq<char>) -> bool {
    base == "DH"@ || base == "F"@ || base == "HH"@ || base == "S"@ || base == "SH"@ || base == "TH"@
        || base == "V"@ || base == "Z"@ || base == "ZH"@
}

/// The other consonants that are held, nasals and liquids, and the two glides.
pub open spec fn is_sonorant(base: Seq<char>) -> bool {
    base == "M"@ || base == "N"@ || base == "NG"@ || base == "L"@ || base == "R"@ || base == "W"@
        || base == "Y"@
}

/// The vowels, diphthongs among them.
pub open spec fn is_vowel(base: Seq<char>) -> bool {
    base == "AA"@ || base == "AE"@ || base == "AH"@ || base == "AO"@ || base == "EH"@ || base
        == "ER"@ || base == "IH"@ || base == "IY"@ || base == "UH"@ || base == "UW"@ || base
        == "AY"@ || base == "AW"@ || base == "EY"@ || base == "OW"@ || base == "OY"@
}

/// Exactly these sounds have a class, and exactly the stops and affricates are
/// classed as such; of the others, a fricative that is no stop is classed as one.
pub proof fn law_sounds_have_one_class(base: Seq<char>)
    ensures
        class_of(base) is Some <==> is_stop(base) || is_fricative(base) || is_sonorant(base)
            || is_vowel(base),
        class_of(base) == Some(CutClass::StopOrAffricate) <==> is_stop(base),
        class_of(base) == Some(CutClass::Fricative) <==> is_fricative(base) && !is_stop(base),
        class_of(base) == Some(CutClass::Monophthong) || class_of(base) == Some(CutClass::Diphthong)
            ==> is_vowel(base),
        class_of(base) == Some(CutClass::NasalOrLiquid) || class_of(base) == Some(CutClass::Glide)
            ==> is_sonorant(base),
{
}

/// A tier is accepted iff each of its phonemes is and no row, in time order, starts
/// more than a nanosecond before the one in front of it ends.
pub proof fn law_tiers_are_accepted_iff_they_do_not_overlap(ps: Seq<Phoneme>)
    ensures
        tier_of(ps) is Ok <==> rows_of(ps) is Ok && forall|i: int, j: int|
            #![trigger ordered(rows_of(ps)->Ok_0)[i], ordered(rows_of(ps)->Ok_0)[j]]
            0 <= i && j == i + 1 && j < ordered(rows_of(ps)->Ok_0).len() ==> ordered(
                rows_of(ps)->Ok_0,
            )[j].t_start >= ordered(rows_of(ps)->Ok_0)[i].t_end - 1,
        rows_of(ps) is Ok <==> forall|i: int|
            #![trigger ps[i]]
            0 <= i < ps.len() ==> row_of(ps[i]) is Ok,
        tier_of(ps) is Ok ==> tier_of(ps)->Ok_0 == ordered(rows_of(ps)->Ok_0),
{
    lemma_rows_accepted(ps);
    if rows_of(ps) is Ok {
        let tier = ordered(rows_of(ps)->Ok_0);
        lemma_first_overlap(tier, 1);
        if tier_of(ps) is Ok {
            assert forall|i: int, j: int|
                #![trigger tier[i], tier[j]]
                0 <= i && j == i + 1 && j < tier.len() implies tier[j].t_start >= tier[i].t_end
                - 1 by {
                lemma_no_overlap(tier, 1, j);
            }
        } else {
            let at = first_overlap(tier, 1);
            assert(tier[at].t_start < tier[at - 1].t_end - 1);
        }
    }
}

proof fn lemma_first_overlap(tier: Seq<PhoneView>, from: int)
    requires
        1 <= from,
    ensures
        first_overlap(tier, from) <= tier.len(),
        first_overlap(tier, from) < tier.len() ==> from <= first_overlap(tier, from) && tier[
            first_overlap(tier, from)
        ].t_start < tier[first_overlap(tier, from) - 1].t_end - 1,
    decreases tier.len() - from,
{
    if from < tier.len() && !overlaps(tier[from - 1], tier[from]) {
        lemma_first_overlap(tier, from + 1);
    }
}

proof fn lemma_rows_accepted(ps: Seq<Phoneme>)
    ensures
        rows_of(ps) is Ok <==> forall|i: int|
            #![trigger ps[i]]
            0 <= i < ps.len() ==> row_of(ps[i]) is Ok,
    decreases ps.len(),
{
    if ps.len() > 0 {
        let before = ps.drop_last();
        lemma_rows_accepted(before);
        assert(ps[ps.len() - 1] == ps.last());
        assert forall|i: int| #![trigger ps[i]] 0 <= i < before.len() implies before[i]
            == ps[i] by {}
        if rows_of(before) is Err {
            let i = choose|i: int|
                #![trigger before[i]]
                0 <= i < before.len() && row_of(before[i]) is Err;
            assert(row_of(ps[i]) is Err);
        } else {
            assert forall|i: int| #![trigger ps[i]] 0 <= i < before.len() implies row_of(
                ps[i],
            ) is Ok by {
                assert(before[i] == ps[i]);
            }
        }
    }
}

/// Every known sound is understood, bare or with a stress mark from 0 to 2; a label
/// that is neither that nor a silence or a noise is not.
pub proof fn law_sounds_are_understood(base: Seq<char>, mark: char, label: Seq<char>)
    requires
        class_of(base) is Some,
        !('0' <= base.last() <= '2'),
        '0' <= mark <= '2',
    ensures
        kind_of(base.push(mark)) is Some,
        kind_of(base) is Some,
        kind_of("SIL"@) is Some,
        kind_of("NOISE"@) is Some,
        kind_of(label) is Some && label != "SIL"@ && label != "NOISE"@ ==> class_of(label) is Some
            || (label.len() > 0 && '0' <= label.last() <= '2' && class_of(label.drop_last()) is Some),
{
    assert(base.push(mark).drop_last() =~= base);
    assert(base.push(mark).last() == mark);
}

/// Whether a silence of a tier covers or nearly touches a time.
pub open spec fn silent_near(tier: Seq<PhoneView>, x: int) -> bool {
    exists|i: int|
        #![trigger tier[i]]
        0 <= i < tier.len() && tier[i].kind is Sil && tier[i].t_start - 2 <= x <= tier[i].t_end + 1
}

/// Once a tier is terminated, merged and cut, adjacency is broken at every boundary:
/// a silence covers or nearly touches it, or a row edge nearest to it.
pub proof fn law_boundaries_stay_broken(
    tier: Seq<PhoneView>,
    boundaries: Seq<(i64, SilOrigin)>,
    k: int,
)
    requires
        tier.len() > 0,
        in_time_order(tier),
        0 <= k < boundaries.len(),
    ensures
        ({
            let out = with_cuts(merged(terminated(tier, boundaries)));
            let t = boundaries[k].0 as int;
            silent_near(out, t) || exists|x: int|
                #[trigger] is_nearest_edge(tier, x, t) && silent_near(out, x)
        }),
{
    let mid = terminated(tier, boundaries);
    let added = law_terminators_only_add(tier, boundaries);
    let out = with_cuts(merged(mid));
    let t = boundaries[k].0 as int;
    assert forall|x: int| #[trigger] touches_sil(mid, x) implies silent_near(out, x) by {
        let i = choose|i: int|
            #![trigger mid[i]]
            0 <= i < mid.len() && mid[i].sil() && mid[i].t_start - T_EPS <= x <= mid[i].t_end
                + T_EPS;
        law_merged_rows_span_their_runs(mid);
        let r = lemma_run_holding(mid, i, merged(mid).len() as int);
        assert(stands_for(merged(mid)[r], mid, sil_runs(mid)[r]));
        let from = sil_runs(mid)[r].0;
        assert(mid[from].t_start <= mid[i].t_start + T_EPS);
        assert(mid[i].t_end <= merged(mid)[r].t_end);
        assert(merged(mid)[r].sil());
        assert(out[r].kind == merged(mid)[r].kind);
        assert(out[r].kind is Sil);
    }
    if !touches_sil(mid, t) {
        let x = choose|x: int| #[trigger] is_nearest_edge(tier, x, t) && touches_sil(mid, x);
        assert(touches_sil(mid, x));
    }
}

proof fn lemma_run_holding(tier: Seq<PhoneView>, i: int, n: int) -> (r: int)
    requires
        0 < n <= merged(tier).len(),
        0 <= i < sil_runs(tier)[n - 1].1,
        sil_runs(tier).len() == merged(tier).len(),
        sil_runs(tier)[0].0 == 0,
        forall|i: int, j: int|
            #![trigger sil_runs(tier)[i], sil_runs(tier)[j]]
            0 <= i && j == i + 1 && j < merged(tier).len() ==> sil_runs(tier)[i].1 == sil_runs(
                tier,
            )[j].0,
    ensures
        0 <= r < n,
        sil_runs(tier)[r].0 <= i < sil_runs(tier)[r].1,
    decreases n,
{
    if sil_runs(tier)[n - 1].0 <= i {
        n - 1
    } else {
        assert(n > 1);
        assert(sil_runs(tier)[n - 2].1 == sil_runs(tier)[n - 1].0);
        lemma_run_holding(tier, i, n - 1)
    }
}

} // verus!
