//! Diphone derivation: the adjacency rule and span materialization.
//!
//! Operates on a source's processed phone tier (NOISE excised, SIL runs
//! merged, cut points assigned). Two phones bond iff their gap is at most
//! 20 ms, neither is NOISE, and not both are SIL. Zero-extent SIL terminators
//! break adjacency without forming addressable units.
use super::phones::{
    excised, index_views, lemma_excised, noise_excised_view, tier_proper, tier_views, KindView,
    PhoneView, TierPhone, ADJACENCY_GAP_MAX, SIL_DISPLACEMENT_MAX, T_EPS,
};
use crate::text::signed_dec;
use vstd::prelude::*;
use vstd::string::StringExecFns;

verus! {

/// A unit of two bonded phones.
#[derive(Debug)]
pub struct DerivedDiphone {
    /// Indices into the tier passed to `derive`.
    pub phone_a: usize,
    pub phone_b: usize,
    /// Per-source ordinal. Consecutive bonded diphones (sharing their middle
    /// phone) get consecutive values; every break skips one, so a `seq + 1`
    /// self-join finds exactly the source-contiguous pairs.
    pub seq: i128,
    /// Stress-stripped match key, e.g. "AA-K".
    pub label: String,
    pub stress_a: Option<i64>,
    pub stress_b: Option<i64>,
    pub t_start: i64,
    pub t_end: i64,
}

/// A unit as a value.
pub struct DiphoneView {
    pub phone_a: int,
    pub phone_b: int,
    pub seq: int,
    pub label: Seq<char>,
    pub stress_a: Option<i64>,
    pub stress_b: Option<i64>,
    pub t_start: int,
    pub t_end: int,
}

impl View for DerivedDiphone {
    type V = DiphoneView;

    open spec fn view(&self) -> DiphoneView {
        DiphoneView {
            phone_a: self.phone_a as int,
            phone_b: self.phone_b as int,
            seq: self.seq as int,
            label: self.label@,
            stress_a: self.stress_a,
            stress_b: self.stress_b,
            t_start: self.t_start as int,
            t_end: self.t_end as int,
        }
    }
}

/// The units of a list.
pub open spec fn diphone_views(v: Seq<DerivedDiphone>) -> Seq<DiphoneView> {
    Seq::new(v.len(), |i: int| v[i]@)
}

/// How far a boundary on the SIL side lies inside the silence: half the SIL
/// duration, capped, so that no unit carries a second of dead air.
pub open spec fn displacement(sil: PhoneView) -> int {
    let half = (sil.t_end - sil.t_start) / 2;
    if half < SIL_DISPLACEMENT_MAX {
        half
    } else {
        SIL_DISPLACEMENT_MAX as int
    }
}

/// Whether two neighbours of the adjacency view form an addressable unit.
pub open spec fn forms_unit(a: PhoneView, b: PhoneView) -> bool {
    &&& b.t_start - a.t_end <= ADJACENCY_GAP_MAX + T_EPS
    &&& !(a.sil() && b.sil())
    &&& !(a.sil() && a.zero_extent())
    &&& !(b.sil() && b.zero_extent())
}

/// Whether the view's rows `k` and `k + 1` form a unit.
pub open spec fn unit_at(tier: Seq<PhoneView>, view: Seq<int>, k: int) -> bool {
    0 <= k && k + 1 < view.len() && forms_unit(tier[view[k]], tier[view[k + 1]])
}

/// The ordinal reached after the first `k` neighbour pairs: a unit directly
/// after a unit takes the next one, any other unit skips one.
pub open spec fn seq_after(tier: Seq<PhoneView>, view: Seq<int>, k: int) -> int
    decreases k,
{
    if k <= 0 {
        -2
    } else if unit_at(tier, view, k - 1) {
        seq_after(tier, view, k - 1) + if unit_at(tier, view, k - 2) {
            1int
        } else {
            2
        }
    } else {
        seq_after(tier, view, k - 1)
    }
}

/// The positions, among the first `k` neighbour pairs, that form units.
pub open spec fn unit_positions(tier: Seq<PhoneView>, view: Seq<int>, k: int) -> Seq<int>
    decreases k,
{
    if k <= 0 {
        Seq::empty()
    } else if unit_at(tier, view, k - 1) {
        unit_positions(tier, view, k - 1).push(k - 1)
    } else {
        unit_positions(tier, view, k - 1)
    }
}

/// The unit at position `k` of the adjacency view: from cut point to cut
/// point, and into the silence on a SIL side.
pub open spec fn diphone_at(tier: Seq<PhoneView>, view: Seq<int>, k: int) -> DiphoneView {
    let (a, b) = (tier[view[k]], tier[view[k + 1]]);
    DiphoneView {
        phone_a: view[k],
        phone_b: view[k + 1],
        seq: seq_after(tier, view, k + 1),
        label: a.base_text() + "-"@ + b.base_text(),
        stress_a: a.stress_mark(),
        stress_b: b.stress_mark(),
        t_start: if a.sil() {
            a.t_end - displacement(a)
        } else {
            a.cut_t->0 as int
        },
        t_end: if b.sil() {
            b.t_start + displacement(b)
        } else {
            b.cut_t->0 as int
        },
    }
}

/// The units of a tier, in order.
pub open spec fn derived(tier: Seq<PhoneView>) -> Seq<DiphoneView> {
    let view = excised(tier);
    unit_positions(tier, view, view.len() - 1).map_values(|k: int| diphone_at(tier, view, k))
}

/// Every real phone has its cut point.
pub open spec fn all_cut(tier: Seq<PhoneView>) -> bool {
    forall|i: int|
        #![trigger tier[i]]
        0 <= i < tier.len() && tier[i].speech() ==> tier[i].cut_t is Some
}

fn sil_displacement(sil: &TierPhone) -> (d: i64)
    requires
        sil.t_start <= sil.t_end,
    ensures
        d == displacement(sil@),
        0 <= d <= sil@.t_end - sil@.t_start,
{
    let half: i128 = sil.duration() / 2;
    if half < SIL_DISPLACEMENT_MAX as i128 {
        half as i64
    } else {
        SIL_DISPLACEMENT_MAX
    }
}

/// Derives the units of a tier whose cut points are assigned.
pub fn derive(tier: &Vec<TierPhone>) -> (out: Vec<DerivedDiphone>)
    requires
        tier_proper(tier_views(tier@)),
        all_cut(tier_views(tier@)),
    ensures
        diphone_views(out@) == derived(tier_views(tier@)),
{
    let ghost all = tier_views(tier@);
    let view: Vec<usize> = noise_excised_view(tier);
    let ghost v = index_views(view@);
    proof {
        lemma_excised(all);
    }
    let mut out: Vec<DerivedDiphone> = Vec::new();
    let mut seq: i128 = -2;
    let mut linked: bool = false;
    let mut k: usize = 0;
    if view.len() == 0 {
        assert(diphone_views(out@) =~= derived(all));
        return out;
    }
    while k < view.len() - 1
        invariant
            view@.len() > 0,
            k <= view@.len() - 1,
            all == tier_views(tier@),
            v == index_views(view@),
            v == excised(all),
            tier_proper(all),
            all_cut(all),
            forall|j: int|
                #![trigger v[j]]
                0 <= j < v.len() ==> 0 <= v[j] < all.len() && !all[v[j]].noise(),
            seq == seq_after(all, v, k as int),
            -2 <= seq <= 2 * k - 2,
            linked == unit_at(all, v, k - 1),
            diphone_views(out@) =~= unit_positions(all, v, k as int).map_values(
                |j: int| diphone_at(all, v, j),
            ),
        decreases view@.len() - k,
    {
        let ia: usize = view[k];
        let ib: usize = view[k + 1];
        assert(v[k as int] == ia && v[k + 1] == ib);
        let a: &TierPhone = &tier[ia];
        let b: &TierPhone = &tier[ib];
        assert(all[ia as int] == a@ && all[ib as int] == b@);
        let gap: i128 = b.t_start as i128 - a.t_end as i128;
        let a_sil: bool = a.is_sil();
        let b_sil: bool = b.is_sil();
        let bonds: bool = gap <= ADJACENCY_GAP_MAX as i128 + T_EPS as i128 && !(a_sil && b_sil);
        let zero_sil: bool = (a_sil && a.is_zero_extent()) || (b_sil && b.is_zero_extent());
        let ghost before = diphone_views(out@);
        if bonds && !zero_sil {
            seq = if linked {
                seq + 1
            } else {
                seq + 2
            };
            linked = true;
            let t_start: i64 = if a_sil {
                a.t_end - sil_displacement(a)
            } else {
                match a.cut_t {
                    Some(t) => t,
                    None => 0,
                }
            };
            let t_end: i64 = if b_sil {
                b.t_start + sil_displacement(b)
            } else {
                match b.cut_t {
                    Some(t) => t,
                    None => 0,
                }
            };
            let mut label: String = a.base().to_owned();
            label.append("-");
            label.append(b.base());
            let unit = DerivedDiphone {
                phone_a: ia,
                phone_b: ib,
                seq,
                label,
                stress_a: a.stress(),
                stress_b: b.stress(),
                t_start,
                t_end,
            };
            let ghost added = unit@;
            out.push(unit);
            proof {
                assert(unit_at(all, v, k as int));
                assert(added == diphone_at(all, v, k as int));
                assert(diphone_views(out@) =~= before.push(added));
            }
        } else {
            linked = false;
            assert(!unit_at(all, v, k as int));
        }
        k = k + 1;
    }
    out
}

// ---------------------------------------------------------------------- laws

proof fn lemma_unit_positions(tier: Seq<PhoneView>, view: Seq<int>, k: int)
    ensures
        forall|n: int|
            #![trigger unit_positions(tier, view, k)[n]]
            0 <= n < unit_positions(tier, view, k).len() ==> unit_at(
                tier,
                view,
                unit_positions(tier, view, k)[n],
            ) && unit_positions(tier, view, k)[n] < k,
        forall|m: int, n: int|
            #![trigger unit_positions(tier, view, k)[m], unit_positions(tier, view, k)[n]]
            0 <= m < n < unit_positions(tier, view, k).len() ==> unit_positions(tier, view, k)[m]
                < unit_positions(tier, view, k)[n],
    decreases k,
{
    if k > 0 {
        lemma_unit_positions(tier, view, k - 1);
        let (a, b) = (unit_positions(tier, view, k - 1), unit_positions(tier, view, k));
        assert forall|n: int| #![trigger b[n]] 0 <= n < b.len() implies unit_at(tier, view, b[n])
            && b[n] < k by {
            if n < a.len() {
                assert(b[n] == a[n]);
            }
        }
        assert forall|m: int, n: int|
            #![trigger b[m], b[n]]
            0 <= m < n < b.len() implies b[m] < b[n] by {
            assert(b[m] == a[m]);
            if n < a.len() {
                assert(b[n] == a[n]);
            }
        }
    }
}

proof fn lemma_seq_monotone(tier: Seq<PhoneView>, view: Seq<int>, j: int, k: int)
    requires
        j <= k,
    ensures
        seq_after(tier, view, j) <= seq_after(tier, view, k),
    decreases k - j,
{
    if j < k {
        lemma_seq_monotone(tier, view, j, k - 1);
    }
}

proof fn lemma_seq_steps(tier: Seq<PhoneView>, view: Seq<int>, j: int, k: int)
    requires
        0 <= j < k,
        unit_at(tier, view, j),
        unit_at(tier, view, k),
    ensures
        seq_after(tier, view, k + 1) >= seq_after(tier, view, j + 1) + 1,
        k > j + 1 ==> seq_after(tier, view, k + 1) >= seq_after(tier, view, j + 1) + 2,
        k == j + 1 ==> seq_after(tier, view, k + 1) == seq_after(tier, view, j + 1) + 1,
    decreases k - j,
{
    if k > j + 1 {
        if unit_at(tier, view, k - 1) {
            lemma_seq_steps(tier, view, j, k - 1);
        } else {
            lemma_seq_monotone(tier, view, j + 1, k);
        }
    }
}

/// A `seq + 1` self-join finds exactly the source-contiguous pairs: of two
/// units, the second has the next ordinal iff it starts with the phone that
/// the first ends with.
pub proof fn law_next_seq_is_shared_phone(tier: Seq<PhoneView>, i: int, j: int)
    requires
        0 <= i < derived(tier).len(),
        0 <= j < derived(tier).len(),
    ensures
        derived(tier)[j].seq == derived(tier)[i].seq + 1 <==> derived(tier)[j].phone_a == derived(
            tier,
        )[i].phone_b,
{
    let view = excised(tier);
    let ks = unit_positions(tier, view, view.len() - 1);
    lemma_excised(tier);
    lemma_unit_positions(tier, view, view.len() - 1);
    let (p, q) = (ks[i], ks[j]);
    assert(unit_at(tier, view, p) && unit_at(tier, view, q));
    assert(derived(tier)[i] == diphone_at(tier, view, p));
    assert(derived(tier)[j] == diphone_at(tier, view, q));
    if p < q {
        lemma_seq_steps(tier, view, p, q);
        if q > p + 1 {
            assert(view[p + 1] < view[q]);
        }
    } else {
        assert(view[q] < view[p + 1]);
        if q < p {
            lemma_seq_steps(tier, view, q, p);
        }
    }
}

/// Ordinals ascend with the units, and start at zero.
pub proof fn law_seq_ascends(tier: Seq<PhoneView>, i: int, j: int)
    requires
        0 <= i < j < derived(tier).len(),
    ensures
        0 <= derived(tier)[i].seq < derived(tier)[j].seq,
{
    let view = excised(tier);
    let ks = unit_positions(tier, view, view.len() - 1);
    lemma_unit_positions(tier, view, view.len() - 1);
    assert(ks[i] < ks[j]);
    lemma_seq_steps(tier, view, ks[i], ks[j]);
    lemma_seq_monotone(tier, view, 0, ks[i]);
    if unit_at(tier, view, ks[i] - 1) {
        lemma_seq_monotone(tier, view, 0, ks[i] - 1);
        lemma_first_seq(tier, view, ks[i] - 1);
    }
}

proof fn lemma_first_seq(tier: Seq<PhoneView>, view: Seq<int>, k: int)
    requires
        unit_at(tier, view, k),
    ensures
        seq_after(tier, view, k + 1) >= 0,
    decreases k,
{
    if unit_at(tier, view, k - 1) {
        lemma_first_seq(tier, view, k - 1);
    } else {
        lemma_seq_monotone(tier, view, 0, k);
    }
}

/// No unit is silence on both sides, and none touches a zero-extent SIL.
pub proof fn law_units_hold_speech(tier: Seq<PhoneView>, i: int)
    requires
        0 <= i < derived(tier).len(),
    ensures
        ({
            let d = derived(tier)[i];
            let (a, b) = (tier[d.phone_a], tier[d.phone_b]);
            &&& 0 <= d.phone_a < d.phone_b < tier.len()
            &&& a.speech() || b.speech()
            &&& !a.noise() && !b.noise()
            &&& a.sil() ==> !a.zero_extent()
            &&& b.sil() ==> !b.zero_extent()
        }),
{
    let view = excised(tier);
    let ks = unit_positions(tier, view, view.len() - 1);
    lemma_excised(tier);
    lemma_unit_positions(tier, view, view.len() - 1);
    assert(unit_at(tier, view, ks[i]));
    assert(view[ks[i]] < view[ks[i] + 1]);
}

/// A unit bridges nothing but noise, and only a short gap: no unit reaches
/// across a silence, a terminator or another phone.
pub proof fn law_units_bridge_only_noise(tier: Seq<PhoneView>, i: int)
    requires
        0 <= i < derived(tier).len(),
    ensures
        ({
            let d = derived(tier)[i];
            &&& forall|k: int| d.phone_a < k < d.phone_b ==> (#[trigger] tier[k]).noise()
            &&& tier[d.phone_b].t_start - tier[d.phone_a].t_end <= ADJACENCY_GAP_MAX + T_EPS
        }),
{
    let view = excised(tier);
    let ks = unit_positions(tier, view, view.len() - 1);
    lemma_excised(tier);
    lemma_unit_positions(tier, view, view.len() - 1);
    let p = ks[i];
    assert(unit_at(tier, view, p));
    let d = derived(tier)[i];
    assert forall|k: int| d.phone_a < k < d.phone_b implies (#[trigger] tier[k]).noise() by {
        if !tier[k].noise() {
            assert(view.contains(k));
            let q = choose|q: int| 0 <= q < view.len() && view[q] == k;
            assert(view[p] < view[q] < view[p + 1]);
            if q < p {
                assert(view[q] < view[p]);
            } else if q > p + 1 {
                assert(view[p + 1] < view[q]);
            }
        }
    }
}

/// The phone of a tier that a unit begins or ends with, as its position in the
/// adjacency view gives it.
proof fn lemma_unit(tier: Seq<PhoneView>, i: int) -> (p: int)
    requires
        0 <= i < derived(tier).len(),
    ensures
        unit_at(tier, excised(tier), p),
        derived(tier)[i] == diphone_at(tier, excised(tier), p),
{
    let view = excised(tier);
    let ks = unit_positions(tier, view, view.len() - 1);
    lemma_unit_positions(tier, view, view.len() - 1);
    assert(unit_at(tier, view, ks[i]));
    ks[i]
}

/// A unit is named by its two phones without their stress, and carries the
/// stress mark of each: where a phone has one, the label that is stored for it
/// is its part of the name and the mark.
pub proof fn law_units_carry_both_phones_stress(tier: Seq<PhoneView>, i: int)
    requires
        0 <= i < derived(tier).len(),
    ensures
        ({
            let d = derived(tier)[i];
            let (a, b) = (tier[d.phone_a].kind, tier[d.phone_b].kind);
            let mark = |kind: KindView|
                match kind {
                    KindView::Real { stress, .. } => stress,
                    _ => None,
                };
            let name = |kind: KindView|
                match kind {
                    KindView::Real { base, .. } => base,
                    KindView::Sil(_) => "SIL"@,
                    KindView::Noise => "NOISE"@,
                };
            &&& d.stress_a == mark(a)
            &&& d.stress_b == mark(b)
            &&& d.label == name(a) + "-"@ + name(b)
            &&& tier[d.phone_a].label_text() == name(a) + (match d.stress_a {
                Some(s) => signed_dec(s as int),
                None => Seq::empty(),
            })
            &&& tier[d.phone_b].label_text() == name(b) + (match d.stress_b {
                Some(s) => signed_dec(s as int),
                None => Seq::empty(),
            })
        }),
{
    let p = lemma_unit(tier, i);
    let d = derived(tier)[i];
    let (a, b) = (tier[d.phone_a], tier[d.phone_b]);
    assert(a.label_text() =~= a.base_text() + (match a.stress_mark() {
        Some(s) => signed_dec(s as int),
        None => Seq::empty(),
    }));
    assert(b.label_text() =~= b.base_text() + (match b.stress_mark() {
        Some(s) => signed_dec(s as int),
        None => Seq::empty(),
    }));
}

/// A unit runs from the cut point of its first phone to that of its second. On
/// a silent side it reaches half of the silence in, a fifth of a second at most.
pub proof fn law_units_run_from_cut_to_cut(tier: Seq<PhoneView>, i: int)
    requires
        all_cut(tier),
        0 <= i < derived(tier).len(),
    ensures
        ({
            let d = derived(tier)[i];
            let (a, b) = (tier[d.phone_a], tier[d.phone_b]);
            let reaches = |x: int, len: int|
                2 * x <= len && x <= 200_000_000 && (2 * x >= len - 1 || x == 200_000_000);
            &&& a.kind is Real ==> a.cut_t is Some && d.t_start == a.cut_t->0
            &&& b.kind is Real ==> b.cut_t is Some && d.t_end == b.cut_t->0
            &&& a.kind is Sil ==> reaches(a.t_end - d.t_start, a.t_end - a.t_start)
            &&& b.kind is Sil ==> reaches(d.t_end - b.t_start, b.t_end - b.t_start)
        }),
{
    let p = lemma_unit(tier, i);
    law_units_hold_speech(tier, i);
}

/// Every bond is a unit: two phones with nothing but noise between them, at
/// most twenty milliseconds apart (and a nanosecond), not both silent, and
/// neither a silence without extent.
pub proof fn law_every_bond_is_a_unit(tier: Seq<PhoneView>, a: int, b: int) -> (i: int)
    requires
        0 <= a < b < tier.len(),
        !(tier[a].kind is Noise),
        !(tier[b].kind is Noise),
        forall|k: int| a < k < b ==> (#[trigger] tier[k]).kind is Noise,
        tier[b].t_start - tier[a].t_end <= 20_000_001,
        !(tier[a].kind is Sil && tier[b].kind is Sil),
        tier[a].kind is Sil ==> tier[a].t_end - tier[a].t_start > 1,
        tier[b].kind is Sil ==> tier[b].t_end - tier[b].t_start > 1,
    ensures
        0 <= i < derived(tier).len(),
        derived(tier)[i].phone_a == a,
        derived(tier)[i].phone_b == b,
{
    let view = excised(tier);
    lemma_excised(tier);
    assert(view.contains(a) && view.contains(b));
    let p = choose|p: int| 0 <= p < view.len() && view[p] == a;
    let q = choose|q: int| 0 <= q < view.len() && view[q] == b;
    if q <= p {
        if q < p {
            assert(view[q] < view[p]);
        }
    }
    if q > p + 1 {
        assert(view[p] < view[p + 1] < view[q]);
        assert(tier[view[p + 1]].kind is Noise);
    }
    assert(unit_at(tier, view, p));
    let ks = unit_positions(tier, view, view.len() - 1);
    lemma_position_listed(tier, view, view.len() - 1, p);
    let i = choose|i: int| 0 <= i < ks.len() && ks[i] == p;
    assert(derived(tier)[i] == diphone_at(tier, view, p));
    i
}

proof fn lemma_position_listed(tier: Seq<PhoneView>, view: Seq<int>, k: int, p: int)
    requires
        0 <= p < k,
        unit_at(tier, view, p),
    ensures
        unit_positions(tier, view, k).contains(p),
    decreases k,
{
    let (before, out) = (unit_positions(tier, view, k - 1), unit_positions(tier, view, k));
    if p == k - 1 {
        assert(out[before.len() as int] == p);
    } else {
        lemma_position_listed(tier, view, k - 1, p);
        let n = choose|n: int| 0 <= n < before.len() && before[n] == p;
        assert(out[n] == p);
    }
}

/// Units come in the order of their phones, each pair of phones once.
pub proof fn law_units_follow_the_tier(tier: Seq<PhoneView>, i: int, j: int)
    requires
        0 <= i < j < derived(tier).len(),
    ensures
        derived(tier)[i].phone_b <= derived(tier)[j].phone_a,
        derived(tier)[i].phone_a < derived(tier)[j].phone_a,
{
    let view = excised(tier);
    let ks = unit_positions(tier, view, view.len() - 1);
    lemma_excised(tier);
    lemma_unit_positions(tier, view, view.len() - 1);
    let (p, q) = (ks[i], ks[j]);
    assert(p < q && unit_at(tier, view, p) && unit_at(tier, view, q));
    assert(view[p] < view[q]);
    if p + 1 < q {
        assert(view[p + 1] < view[q]);
    }
}

/// Every unit is such a bond: its phones are at most twenty milliseconds apart
/// (and a nanosecond), not both silent, and neither is a silence without extent.
pub proof fn law_every_unit_is_a_bond(tier: Seq<PhoneView>, i: int)
    requires
        0 <= i < derived(tier).len(),
    ensures
        ({
            let d = derived(tier)[i];
            let (a, b) = (tier[d.phone_a], tier[d.phone_b]);
            &&& b.t_start - a.t_end <= 20_000_001
            &&& !(a.kind is Sil && b.kind is Sil)
            &&& a.kind is Sil ==> a.t_end - a.t_start > 1
            &&& b.kind is Sil ==> b.t_end - b.t_start > 1
        }),
{
    let p = lemma_unit(tier, i);
}

} // verus!
