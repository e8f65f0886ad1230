//! Speaker derivation from raw diarization turns. The loader is the single
//! owner of speaker assignment. Times are nanoseconds.
use super::phones::T_EPS;
use vstd::prelude::*;

verus! {

/// A diarization turn bound to a speaker.
#[derive(Debug, Clone, Copy, PartialEq, Eq, Structural)]
pub struct TurnRow {
    /// Index of the speaker among the source's speakers.
    pub speaker_id: usize,
    pub t_start: i64,
    pub t_end: i64,
}

/// The length of the common part of two intervals.
pub open spec fn shared(a_start: int, a_end: int, b_start: int, b_end: int) -> int {
    let start = if a_start < b_start {
        b_start
    } else {
        a_start
    };
    let end = if a_end < b_end {
        a_end
    } else {
        b_end
    };
    if start < end {
        end - start
    } else {
        0
    }
}

/// The length of the common part of two intervals.
pub fn overlap(a_start: i64, a_end: i64, b_start: i64, b_end: i64) -> (n: u64)
    ensures
        n == shared(a_start as int, a_end as int, b_start as int, b_end as int),
{
    let start: i64 = if a_start < b_start {
        b_start
    } else {
        a_start
    };
    let end: i64 = if a_end < b_end {
        a_end
    } else {
        b_end
    };
    if start < end {
        (end as i128 - start as i128) as u64
    } else {
        0
    }
}

/// How much of a span a turn covers.
pub open spec fn covered(turn: TurnRow, t_start: i64, t_end: i64) -> int {
    shared(t_start as int, t_end as int, turn.t_start as int, turn.t_end as int)
}

/// The first turn that covers most of a span, of those that cover any of it.
pub open spec fn is_dominant(turns: Seq<TurnRow>, t_start: i64, t_end: i64, i: int) -> bool {
    &&& 0 <= i < turns.len()
    &&& covered(turns[i], t_start, t_end) > 0
    &&& forall|j: int|
        #![trigger turns[j]]
        0 <= j < turns.len() ==> covered(turns[j], t_start, t_end) <= covered(
            turns[i],
            t_start,
            t_end,
        )
    &&& forall|j: int|
        #![trigger turns[j]]
        0 <= j < i ==> covered(turns[j], t_start, t_end) < covered(turns[i], t_start, t_end)
}

/// The speaker of a span: that of the turn with maximal temporal overlap, the
/// earlier of two; none where no turn overlaps.
pub open spec fn speaker_of(turns: Seq<TurnRow>, t_start: i64, t_end: i64) -> Option<usize> {
    if exists|i: int| is_dominant(turns, t_start, t_end, i) {
        Some(turns[choose|i: int| is_dominant(turns, t_start, t_end, i)].speaker_id)
    } else {
        None
    }
}

/// Only one turn is dominant.
pub proof fn lemma_dominant_unique(
    turns: Seq<TurnRow>,
    t_start: i64,
    t_end: i64,
    i: int,
    j: int,
)
    requires
        is_dominant(turns, t_start, t_end, i),
        is_dominant(turns, t_start, t_end, j),
    ensures
        i == j,
{
    assert(turns[i] == turns[i] && turns[j] == turns[j]);
}

/// The speaker of the turn with maximal overlap over the span.
pub fn max_overlap_speaker(turns: &Vec<TurnRow>, t_start: i64, t_end: i64) -> (r: Option<usize>)
    ensures
        r == speaker_of(turns@, t_start, t_end),
        r is None <==> forall|j: int|
            #![trigger turns@[j]]
            0 <= j < turns@.len() ==> covered(turns@[j], t_start, t_end) == 0,
{
    let mut best: u64 = 0;
    let mut speaker: Option<usize> = None;
    let ghost mut at: int = -1;
    let mut i: usize = 0;
    while i < turns.len()
        invariant
            i <= turns@.len(),
            forall|j: int|
                #![trigger turns@[j]]
                0 <= j < i ==> covered(turns@[j], t_start, t_end) <= best,
            speaker is None ==> best == 0,
            speaker is Some ==> 0 <= at < i && speaker == Some(turns@[at].speaker_id) && best
                == covered(turns@[at], t_start, t_end) && best > 0 && forall|j: int|
                #![trigger turns@[j]]
                0 <= j < at ==> covered(turns@[j], t_start, t_end) < best,
        decreases turns@.len() - i,
    {
        let ov: u64 = overlap(t_start, t_end, turns[i].t_start, turns[i].t_end);
        if ov > best {
            best = ov;
            speaker = Some(turns[i].speaker_id);
            proof {
                at = i as int;
            }
        }
        i = i + 1;
    }
    proof {
        if speaker is Some {
            assert(is_dominant(turns@, t_start, t_end, at));
            let chosen = choose|i: int| is_dominant(turns@, t_start, t_end, i);
            lemma_dominant_unique(turns@, t_start, t_end, at, chosen);
        } else {
            assert(!(exists|i: int| is_dominant(turns@, t_start, t_end, i))) by {
                if exists|i: int| is_dominant(turns@, t_start, t_end, i) {
                    let chosen = choose|i: int| is_dominant(turns@, t_start, t_end, i);
                    assert(covered(turns@[chosen], t_start, t_end) <= best);
                }
            }
        }
    }
    speaker
}

/// How much of a span the turns of one speaker cover, summed.
pub open spec fn speaker_total(turns: Seq<TurnRow>, t_start: i64, t_end: i64, id: usize) -> int
    decreases turns.len(),
{
    if turns.len() == 0 {
        0
    } else {
        speaker_total(turns.drop_last(), t_start, t_end, id) + if turns.last().speaker_id == id {
            covered(turns.last(), t_start, t_end)
        } else {
            0
        }
    }
}

/// Whether a speaker other than `primary` covers more than a fifth of a span.
pub open spec fn multi_speaker(
    turns: Seq<TurnRow>,
    t_start: i64,
    t_end: i64,
    primary: Option<usize>,
) -> bool {
    t_start < t_end && exists|id: usize|
        #![trigger speaker_total(turns, t_start, t_end, id)]
        Some(id) != primary && 5 * speaker_total(turns, t_start, t_end, id) > t_end - t_start
}

proof fn lemma_total_bound(turns: Seq<TurnRow>, t_start: i64, t_end: i64, id: usize)
    ensures
        0 <= speaker_total(turns, t_start, t_end, id) <= turns.len() * u64::MAX,
    decreases turns.len(),
{
    if turns.len() > 0 {
        lemma_total_bound(turns.drop_last(), t_start, t_end, id);
    }
}

fn total_for(turns: &Vec<TurnRow>, t_start: i64, t_end: i64, id: usize) -> (n: u128)
    ensures
        n == speaker_total(turns@, t_start, t_end, id),
{
    let mut n: u128 = 0;
    let mut i: usize = 0;
    assert(turns@.take(0) =~= Seq::empty());
    while i < turns.len()
        invariant
            i <= turns@.len(),
            n == speaker_total(turns@.take(i as int), t_start, t_end, id),
        decreases turns@.len() - i,
    {
        proof {
            assert(turns@.take(i + 1).drop_last() =~= turns@.take(i as int));
            lemma_total_bound(turns@.take(i as int), t_start, t_end, id);
        }
        if turns[i].speaker_id == id {
            n = n + overlap(t_start, t_end, turns[i].t_start, turns[i].t_end) as u128;
        }
        i = i + 1;
    }
    assert(turns@.take(i as int) =~= turns@);
    n
}

proof fn lemma_total_needs_turn(turns: Seq<TurnRow>, t_start: i64, t_end: i64, id: usize)
    requires
        speaker_total(turns, t_start, t_end, id) > 0,
    ensures
        exists|k: int| 0 <= k < turns.len() && (#[trigger] turns[k]).speaker_id == id,
    decreases turns.len(),
{
    if turns.last().speaker_id == id {
        assert(turns[turns.len() - 1].speaker_id == id);
    } else {
        lemma_total_needs_turn(turns.drop_last(), t_start, t_end, id);
        let k = choose|k: int|
            0 <= k < turns.drop_last().len() && (#[trigger] turns.drop_last()[k]).speaker_id == id;
        assert(turns[k].speaker_id == id);
    }
}

/// True when a speaker other than `primary` overlaps more than a fifth of the
/// span.
pub fn is_multi_speaker(
    turns: &Vec<TurnRow>,
    t_start: i64,
    t_end: i64,
    primary: Option<usize>,
) -> (r: bool)
    ensures
        r == multi_speaker(turns@, t_start, t_end, primary),
{
    if t_start >= t_end {
        return false;
    }
    let fifth: u128 = (t_end as i128 - t_start as i128) as u128 / 5;
    let mut i: usize = 0;
    while i < turns.len()
        invariant
            i <= turns@.len(),
            t_start < t_end,
            fifth == (t_end - t_start) / 5,
            forall|j: int|
                #![trigger turns@[j]]
                0 <= j < i ==> Some(turns@[j].speaker_id) == primary || 5 * speaker_total(
                    turns@,
                    t_start,
                    t_end,
                    turns@[j].speaker_id,
                ) <= t_end - t_start,
        decreases turns@.len() - i,
    {
        let id: usize = turns[i].speaker_id;
        let other: bool = match primary {
            Some(p) => p != id,
            None => true,
        };
        if other && total_for(turns, t_start, t_end, id) > fifth {
            assert(5 * speaker_total(turns@, t_start, t_end, id) > t_end - t_start);
            return true;
        }
        i = i + 1;
    }
    proof {
        assert forall|id: usize|
            #![trigger speaker_total(turns@, t_start, t_end, id)]
            Some(id) != primary implies 5 * speaker_total(turns@, t_start, t_end, id) <= t_end
            - t_start by {
            if speaker_total(turns@, t_start, t_end, id) > 0 {
                lemma_total_needs_turn(turns@, t_start, t_end, id);
                let k = choose|k: int|
                    0 <= k < turns@.len() && (#[trigger] turns@[k]).speaker_id == id;
                assert(turns@[k].speaker_id == id);
            }
        }
    }
    false
}

// -------------------------------------------------------------- carry-forward

/// The largest count that is kept.
pub open spec fn capped(n: int) -> int {
    if n > u128::MAX {
        u128::MAX as int
    } else {
        n
    }
}

/// The summed length of a turn set.
pub open spec fn speech(set: Seq<(i64, i64)>) -> int
    decreases set.len(),
{
    if set.len() == 0 {
        0
    } else {
        speech(set.drop_last()) + (set.last().1 - set.last().0)
    }
}

/// The summed overlap of one interval with a turn set.
pub open spec fn interval_overlap(a: (i64, i64), b: Seq<(i64, i64)>) -> int
    decreases b.len(),
{
    if b.len() == 0 {
        0
    } else {
        interval_overlap(a, b.drop_last()) + shared(
            a.0 as int,
            a.1 as int,
            b.last().0 as int,
            b.last().1 as int,
        )
    }
}

/// The summed overlap of two turn sets.
pub open spec fn set_overlap(a: Seq<(i64, i64)>, b: Seq<(i64, i64)>) -> int
    decreases a.len(),
{
    if a.len() == 0 {
        0
    } else {
        set_overlap(a.drop_last(), b) + interval_overlap(a.last(), b)
    }
}

/// Whether a new turn set may inherit an old speaker: it holds speech, and the
/// two overlap in at least half of the larger set's speech. The rule is
/// symmetric, so a tiny artifact inside an old speaker's speech can never
/// claim that identity.
pub open spec fn may_claim(new: Seq<(i64, i64)>, old_set: Seq<(i64, i64)>) -> bool {
    let ov = capped(set_overlap(new, old_set));
    speech(new) > T_EPS && 2 * (ov + T_EPS) >= speech(new) && 2 * (ov + T_EPS) >= speech(old_set)
}

/// Sequences of turn sets.
pub open spec fn set_views(v: Seq<Vec<(i64, i64)>>) -> Seq<Seq<(i64, i64)>> {
    Seq::new(v.len(), |i: int| v[i]@)
}

/// A possible claim: the overlap, the new set, the old set.
pub open spec fn row_claims(
    new: Seq<(i64, i64)>,
    ni: int,
    olds: Seq<Seq<(i64, i64)>>,
    k: int,
) -> Seq<(int, int, int)>
    decreases k,
{
    if k <= 0 {
        Seq::empty()
    } else if may_claim(new, olds[k - 1]) {
        row_claims(new, ni, olds, k - 1).push((capped(set_overlap(new, olds[k - 1])), ni, k - 1))
    } else {
        row_claims(new, ni, olds, k - 1)
    }
}

/// The possible claims of the first `n` new sets.
pub open spec fn claims(
    news: Seq<Seq<(i64, i64)>>,
    olds: Seq<Seq<(i64, i64)>>,
    n: int,
) -> Seq<(int, int, int)>
    decreases n,
{
    if n <= 0 {
        Seq::empty()
    } else {
        claims(news, olds, n - 1) + row_claims(news[n - 1], n - 1, olds, olds.len() as int)
    }
}

/// Whether claim `a` is settled before claim `b`: more overlap first, then in
/// the order of the new sets, then of the old ones.
pub open spec fn goes_first(a: (int, int, int), b: (int, int, int)) -> bool {
    a.0 > b.0 || (a.0 == b.0 && (a.1 < b.1 || (a.1 == b.1 && a.2 <= b.2)))
}

/// A claim put into its place among settled-order claims.
pub open spec fn with_claim(
    ranked: Seq<(int, int, int)>,
    c: (int, int, int),
) -> Seq<(int, int, int)>
    decreases ranked.len(),
{
    if ranked.len() == 0 || goes_first(ranked.last(), c) {
        ranked.push(c)
    } else {
        with_claim(ranked.drop_last(), c).push(ranked.last())
    }
}

/// Claims in the order in which they are settled.
pub open spec fn in_rank(cs: Seq<(int, int, int)>) -> Seq<(int, int, int)>
    decreases cs.len(),
{
    if cs.len() == 0 {
        Seq::empty()
    } else {
        with_claim(in_rank(cs.drop_last()), cs.last())
    }
}

/// Which old speaker each new set has, and which old speakers are taken, after
/// settling claims in order: a claim stands unless its new set is served or its
/// old speaker taken.
pub open spec fn settled(cs: Seq<(int, int, int)>, n_new: nat, n_old: nat) -> (
    Seq<Option<usize>>,
    Seq<bool>,
)
    decreases cs.len(),
{
    if cs.len() == 0 {
        (Seq::new(n_new, |i: int| None), Seq::new(n_old, |i: int| false))
    } else {
        let (assigned, claimed) = settled(cs.drop_last(), n_new, n_old);
        let (_, ni, oi) = cs.last();
        if assigned[ni] is None && !claimed[oi] {
            (assigned.update(ni, Some(oi as usize)), claimed.update(oi, true))
        } else {
            (assigned, claimed)
        }
    }
}

/// For each new turn set, the old speaker it inherits, if any.
pub open spec fn carried(
    news: Seq<Seq<(i64, i64)>>,
    olds: Seq<Seq<(i64, i64)>>,
) -> Seq<Option<usize>> {
    settled(in_rank(claims(news, olds, news.len() as int)), news.len(), olds.len()).0
}

/// The summed length of a turn set, or zero where turns that end before they
/// start outweigh the others.
fn total_duration(set: &Vec<(i64, i64)>) -> (n: u128)
    ensures
        n == if speech(set@) > 0 {
            speech(set@)
        } else {
            0
        },
{
    let mut plus: u128 = 0;
    let mut minus: u128 = 0;
    let mut i: usize = 0;
    assert(set@.take(0) =~= Seq::empty());
    while i < set.len()
        invariant
            i <= set@.len(),
            plus - minus == speech(set@.take(i as int)),
            plus <= i * 0xffff_ffff_ffff_ffff,
            minus <= i * 0xffff_ffff_ffff_ffff,
        decreases set@.len() - i,
    {
        assert(set@.take(i + 1).drop_last() =~= set@.take(i as int));
        let d: i128 = set[i].1 as i128 - set[i].0 as i128;
        if d >= 0 {
            plus = plus + d as u128;
        } else {
            minus = minus + (-d) as u128;
        }
        i = i + 1;
    }
    assert(set@.take(i as int) =~= set@);
    plus.saturating_sub(minus)
}

proof fn lemma_interval_overlap_nonneg(a: (i64, i64), b: Seq<(i64, i64)>)
    ensures
        interval_overlap(a, b) >= 0,
    decreases b.len(),
{
    if b.len() > 0 {
        lemma_interval_overlap_nonneg(a, b.drop_last());
    }
}

fn total_overlap(a: &Vec<(i64, i64)>, b: &Vec<(i64, i64)>) -> (n: u128)
    ensures
        n == capped(set_overlap(a@, b@)),
{
    let mut n: u128 = 0;
    let mut i: usize = 0;
    assert(a@.take(0) =~= Seq::empty());
    while i < a.len()
        invariant
            i <= a@.len(),
            set_overlap(a@.take(i as int), b@) >= 0,
            n == capped(set_overlap(a@.take(i as int), b@)),
        decreases a@.len() - i,
    {
        let ghost base = set_overlap(a@.take(i as int), b@);
        let ghost x = a@[i as int];
        let mut j: usize = 0;
        assert(b@.take(0) =~= Seq::empty());
        while j < b.len()
            invariant
                i < a@.len(),
                j <= b@.len(),
                x == a@[i as int],
                base >= 0,
                n == capped(base + interval_overlap(x, b@.take(j as int))),
            decreases b@.len() - j,
        {
            proof {
                assert(b@.take(j + 1).drop_last() =~= b@.take(j as int));
                lemma_interval_overlap_nonneg(x, b@.take(j as int));
            }
            n = n.saturating_add(overlap(a[i].0, a[i].1, b[j].0, b[j].1) as u128);
            j = j + 1;
        }
        proof {
            assert(b@.take(j as int) =~= b@);
            assert(a@.take(i + 1).drop_last() =~= a@.take(i as int));
            lemma_interval_overlap_nonneg(x, b@);
        }
        i = i + 1;
    }
    assert(a@.take(i as int) =~= a@);
    n
}

/// Claims as triples of integers.
pub open spec fn claim_views(v: Seq<(u128, usize, usize)>) -> Seq<(int, int, int)> {
    Seq::new(v.len(), |i: int| (v[i].0 as int, v[i].1 as int, v[i].2 as int))
}

fn find_claims(news: &Vec<Vec<(i64, i64)>>, olds: &Vec<Vec<(i64, i64)>>) -> (out: Vec<
    (u128, usize, usize),
>)
    ensures
        claim_views(out@) == claims(set_views(news@), set_views(olds@), news@.len() as int),
{
    let ghost (nv, ov) = (set_views(news@), set_views(olds@));
    let mut out: Vec<(u128, usize, usize)> = Vec::new();
    let mut ni: usize = 0;
    assert(claim_views(out@) =~= Seq::empty());
    while ni < news.len()
        invariant
            ni <= news@.len(),
            nv == set_views(news@),
            ov == set_views(olds@),
            claim_views(out@) == claims(nv, ov, ni as int),
        decreases news@.len() - ni,
    {
        let ghost base = claim_views(out@);
        let new: &Vec<(i64, i64)> = &news[ni];
        assert(nv[ni as int] == new@);
        let total_new: u128 = total_duration(new);
        let mut oi: usize = 0;
        assert(base + row_claims(new@, ni as int, ov, 0) =~= base);
        while oi < olds.len()
            invariant
                oi <= olds@.len(),
                ov == set_views(olds@),
                total_new == if speech(new@) > 0 {
                    speech(new@)
                } else {
                    0
                },
                claim_views(out@) == base + row_claims(new@, ni as int, ov, oi as int),
            decreases olds@.len() - oi,
        {
            let ghost before = claim_views(out@);
            let old_set: &Vec<(i64, i64)> = &olds[oi];
            assert(ov[oi as int] == old_set@);
            if total_new > T_EPS as u128 {
                let shared_len: u128 = total_overlap(new, old_set);
                let total_old: u128 = total_duration(old_set);
                let larger: u128 = if total_new < total_old {
                    total_old
                } else {
                    total_new
                };
                if shared_len >= u128::MAX / 2 || 2 * (shared_len + T_EPS as u128) >= larger {
                    out.push((shared_len, ni, oi));
                    assert(claim_views(out@) =~= before.push(
                        (shared_len as int, ni as int, oi as int),
                    ));
                }
            }
            assert(claim_views(out@) =~= base + row_claims(new@, ni as int, ov, oi + 1));
            oi = oi + 1;
        }
        ni = ni + 1;
    }
    out
}

fn rank_claims(cs: &Vec<(u128, usize, usize)>) -> (out: Vec<(u128, usize, usize)>)
    ensures
        claim_views(out@) == in_rank(claim_views(cs@)),
{
    let ghost all = claim_views(cs@);
    let mut out: Vec<(u128, usize, usize)> = Vec::new();
    let mut i: usize = 0;
    assert(all.take(0) =~= Seq::empty());
    assert(claim_views(out@) =~= Seq::empty());
    while i < cs.len()
        invariant
            i <= cs@.len(),
            all == claim_views(cs@),
            claim_views(out@) == in_rank(all.take(i as int)),
        decreases cs@.len() - i,
    {
        let c: (u128, usize, usize) = cs[i];
        let ghost cv = all[i as int];
        let ghost before = claim_views(out@);
        proof {
            assert(all.take(i + 1).drop_last() =~= all.take(i as int));
            assert(all.take(i + 1).last() == cv);
            assert(before.take(before.len() as int) =~= before);
            assert(with_claim(before, cv) + before.skip(before.len() as int) =~= with_claim(
                before,
                cv,
            ));
        }
        let mut k: usize = out.len();
        while k > 0 && !(out[k - 1].0 > c.0 || (out[k - 1].0 == c.0 && (out[k - 1].1 < c.1 || (out[k
            - 1].1 == c.1 && out[k - 1].2 <= c.2))))
            invariant
                k <= out@.len(),
                before == claim_views(out@),
                cv == (c.0 as int, c.1 as int, c.2 as int),
                with_claim(before.take(k as int), cv) + before.skip(k as int) == with_claim(
                    before,
                    cv,
                ),
            decreases k,
        {
            proof {
                let now = before.take(k as int);
                assert(now.last() == before[k - 1]);
                assert(now.drop_last() =~= before.take(k - 1));
                assert(with_claim(now, cv) + before.skip(k as int) =~= with_claim(
                    before.take(k - 1),
                    cv,
                ) + before.skip(k - 1));
            }
            k = k - 1;
        }
        proof {
            if k > 0 {
                assert(before.take(k as int).last() == before[k - 1]);
            }
            assert(with_claim(before.take(k as int), cv) =~= before.take(k as int).push(cv));
        }
        out.insert(k, c);
        assert(claim_views(out@) =~= before.take(k as int).push(cv) + before.skip(k as int));
        i = i + 1;
    }
    assert(all.take(i as int) =~= all);
    out
}

/// A claim names an existing new set and an existing old one with their
/// overlap, and is allowed.
pub open spec fn claim_ok(
    c: (int, int, int),
    news: Seq<Seq<(i64, i64)>>,
    olds: Seq<Seq<(i64, i64)>>,
) -> bool {
    &&& 0 <= c.1 < news.len()
    &&& 0 <= c.2 < olds.len()
    &&& may_claim(news[c.1], olds[c.2])
    &&& c.0 == capped(set_overlap(news[c.1], olds[c.2]))
}

/// Every claim of a list is allowed.
pub open spec fn claims_ok(
    cs: Seq<(int, int, int)>,
    news: Seq<Seq<(i64, i64)>>,
    olds: Seq<Seq<(i64, i64)>>,
) -> bool {
    forall|k: int| #![trigger cs[k]] 0 <= k < cs.len() ==> claim_ok(cs[k], news, olds)
}

proof fn lemma_row_claims_ok(
    news: Seq<Seq<(i64, i64)>>,
    olds: Seq<Seq<(i64, i64)>>,
    ni: int,
    k: int,
)
    requires
        0 <= ni < news.len(),
        k <= olds.len(),
    ensures
        claims_ok(row_claims(news[ni], ni, olds, k), news, olds),
    decreases k,
{
    if k > 0 {
        lemma_row_claims_ok(news, olds, ni, k - 1);
    }
}

proof fn lemma_claims_ok(news: Seq<Seq<(i64, i64)>>, olds: Seq<Seq<(i64, i64)>>, n: int)
    requires
        n <= news.len(),
    ensures
        claims_ok(claims(news, olds, n), news, olds),
    decreases n,
{
    if n > 0 {
        lemma_claims_ok(news, olds, n - 1);
        lemma_row_claims_ok(news, olds, n - 1, olds.len() as int);
        let (a, b) = (
            claims(news, olds, n - 1),
            row_claims(news[n - 1], n - 1, olds, olds.len() as int),
        );
        let c = claims(news, olds, n);
        assert forall|k: int| #![trigger c[k]] 0 <= k < c.len() implies claim_ok(
            c[k],
            news,
            olds,
        ) by {
            if k < a.len() {
                assert(c[k] == a[k]);
            } else {
                assert(c[k] == b[k - a.len()]);
            }
        }
    }
}

proof fn lemma_with_claim_ok(
    ranked: Seq<(int, int, int)>,
    c: (int, int, int),
    news: Seq<Seq<(i64, i64)>>,
    olds: Seq<Seq<(i64, i64)>>,
)
    requires
        claims_ok(ranked, news, olds),
        claim_ok(c, news, olds),
    ensures
        claims_ok(with_claim(ranked, c), news, olds),
    decreases ranked.len(),
{
    if ranked.len() > 0 && !goes_first(ranked.last(), c) {
        let before = ranked.drop_last();
        assert forall|k: int| #![trigger before[k]] 0 <= k < before.len() implies claim_ok(
            before[k],
            news,
            olds,
        ) by {
            assert(claim_ok(ranked[k], news, olds));
        }
        lemma_with_claim_ok(before, c, news, olds);
        let (a, out) = (with_claim(before, c), with_claim(ranked, c));
        assert(claim_ok(ranked[ranked.len() - 1], news, olds));
        assert forall|k: int| #![trigger out[k]] 0 <= k < out.len() implies claim_ok(
            out[k],
            news,
            olds,
        ) by {
            if k < a.len() {
                assert(out[k] == a[k]);
            }
        }
    }
}

proof fn lemma_rank_ok(
    cs: Seq<(int, int, int)>,
    news: Seq<Seq<(i64, i64)>>,
    olds: Seq<Seq<(i64, i64)>>,
)
    requires
        claims_ok(cs, news, olds),
    ensures
        claims_ok(in_rank(cs), news, olds),
    decreases cs.len(),
{
    if cs.len() > 0 {
        let before = cs.drop_last();
        assert forall|k: int| #![trigger before[k]] 0 <= k < before.len() implies claim_ok(
            before[k],
            news,
            olds,
        ) by {
            assert(claim_ok(cs[k], news, olds));
        }
        lemma_rank_ok(before, news, olds);
        assert(claim_ok(cs[cs.len() - 1], news, olds));
        lemma_with_claim_ok(in_rank(before), cs.last(), news, olds);
    }
}

/// What settling keeps: the lists' lengths, that what is assigned is taken and
/// allowed, and that nothing is assigned twice.
pub open spec fn settled_ok(
    assigned: Seq<Option<usize>>,
    claimed: Seq<bool>,
    news: Seq<Seq<(i64, i64)>>,
    olds: Seq<Seq<(i64, i64)>>,
) -> bool {
    &&& assigned.len() == news.len()
    &&& claimed.len() == olds.len()
    &&& forall|i: int|
        #![trigger assigned[i]]
        0 <= i < assigned.len() && assigned[i] is Some ==> assigned[i]->0 < olds.len()
            && claimed[assigned[i]->0 as int] && may_claim(news[i], olds[assigned[i]->0 as int])
    &&& forall|i: int, j: int|
        #![trigger assigned[i], assigned[j]]
        0 <= i < j < assigned.len() && assigned[i] is Some && assigned[j] is Some ==> assigned[i]
            != assigned[j]
}

proof fn lemma_settled_ok(
    cs: Seq<(int, int, int)>,
    news: Seq<Seq<(i64, i64)>>,
    olds: Seq<Seq<(i64, i64)>>,
)
    requires
        claims_ok(cs, news, olds),
        olds.len() <= usize::MAX,
    ensures
        settled_ok(
            settled(cs, news.len(), olds.len()).0,
            settled(cs, news.len(), olds.len()).1,
            news,
            olds,
        ),
    decreases cs.len(),
{
    if cs.len() > 0 {
        let before = cs.drop_last();
        assert forall|k: int| #![trigger before[k]] 0 <= k < before.len() implies claim_ok(
            before[k],
            news,
            olds,
        ) by {
            assert(claim_ok(cs[k], news, olds));
        }
        lemma_settled_ok(before, news, olds);
        assert(claim_ok(cs[cs.len() - 1], news, olds));
    }
}

/// Each old speaker is claimed at most once, and only by a set that overlaps
/// it in at least half of the larger one's speech.
pub proof fn law_claims_are_exclusive_majorities(
    news: Seq<Seq<(i64, i64)>>,
    olds: Seq<Seq<(i64, i64)>>,
)
    requires
        olds.len() <= usize::MAX,
    ensures
        carried(news, olds).len() == news.len(),
        forall|i: int|
            #![trigger carried(news, olds)[i]]
            0 <= i < news.len() && carried(news, olds)[i] is Some ==> carried(news, olds)[i]->0
                < olds.len() && may_claim(news[i], olds[carried(news, olds)[i]->0 as int]),
        forall|i: int, j: int|
            #![trigger carried(news, olds)[i], carried(news, olds)[j]]
            0 <= i < j < news.len() && carried(news, olds)[i] is Some && carried(
                news,
                olds,
            )[j] is Some ==> carried(news, olds)[i] != carried(news, olds)[j],
{
    let cs = claims(news, olds, news.len() as int);
    lemma_claims_ok(news, olds, news.len() as int);
    lemma_rank_ok(cs, news, olds);
    lemma_settled_ok(in_rank(cs), news, olds);
}

/// Whether a new set has an old speaker, with at least the given overlap.
pub open spec fn holds(
    assigned: Seq<Option<usize>>,
    news: Seq<Seq<(i64, i64)>>,
    olds: Seq<Seq<(i64, i64)>>,
    ni: int,
    oi: int,
    least: int,
) -> bool {
    0 <= ni < news.len() && 0 <= oi < olds.len() && assigned[ni] == Some(oi as usize) && capped(
        set_overlap(news[ni], olds[oi]),
    ) >= least
}

/// Whether one side of a claim is held with at least the claim's overlap: its
/// new set has an old speaker, or its old speaker went to a new set.
pub open spec fn outdone(
    assigned: Seq<Option<usize>>,
    news: Seq<Seq<(i64, i64)>>,
    olds: Seq<Seq<(i64, i64)>>,
    c: (int, int, int),
) -> bool {
    ||| exists|oi: int| #[trigger] holds(assigned, news, olds, c.1, oi, c.0)
    ||| exists|ni: int| #[trigger] holds(assigned, news, olds, ni, c.2, c.0)
}

/// Claims in the order in which they are settled, each before all later ones.
pub open spec fn ranked(cs: Seq<(int, int, int)>) -> bool {
    forall|a: int, b: int|
        #![trigger cs[a], cs[b]]
        0 <= a < b < cs.len() ==> goes_first(cs[a], cs[b])
}

proof fn lemma_with_claim_ranks(cs: Seq<(int, int, int)>, c: (int, int, int))
    requires
        ranked(cs),
    ensures
        ranked(with_claim(cs, c)),
        with_claim(cs, c).contains(c),
        forall|x: (int, int, int)| #[trigger]
            with_claim(cs, c).contains(x) ==> x == c || cs.contains(x),
        forall|x: (int, int, int)| #[trigger] cs.contains(x) ==> with_claim(cs, c).contains(x),
    decreases cs.len(),
{
    let out = with_claim(cs, c);
    if cs.len() == 0 || goes_first(cs.last(), c) {
        assert(out == cs.push(c));
        assert(out[cs.len() as int] == c);
        assert forall|x: (int, int, int)| #[trigger] cs.contains(x) implies out.contains(x) by {
            let k = choose|k: int| 0 <= k < cs.len() && cs[k] == x;
            assert(out[k] == x);
        }
        assert forall|a: int, b: int|
            #![trigger out[a], out[b]]
            0 <= a < b < out.len() implies goes_first(out[a], out[b]) by {
            if b == cs.len() {
                let (x, y) = (cs[a], cs[cs.len() - 1]);
                assert(a == cs.len() - 1 || goes_first(x, y));
            } else {
                assert(goes_first(cs[a], cs[b]));
            }
        }
    } else {
        let before = cs.drop_last();
        assert(ranked(before)) by {
            assert forall|a: int, b: int|
                #![trigger before[a], before[b]]
                0 <= a < b < before.len() implies goes_first(before[a], before[b]) by {
                assert(goes_first(cs[a], cs[b]));
            }
        }
        lemma_with_claim_ranks(before, c);
        let inner = with_claim(before, c);
        assert(out == inner.push(cs.last()));
        assert forall|x: (int, int, int)| #[trigger] inner.contains(x) implies goes_first(
            x,
            cs.last(),
        ) by {
            if x != c {
                let k = choose|k: int| 0 <= k < before.len() && before[k] == x;
                assert(goes_first(cs[k], cs[cs.len() - 1]));
            }
        }
        assert forall|a: int, b: int|
            #![trigger out[a], out[b]]
            0 <= a < b < out.len() implies goes_first(out[a], out[b]) by {
            assert(inner.contains(inner[a]));
            if b < inner.len() {
                assert(goes_first(inner[a], inner[b]));
            }
        }
        assert forall|x: (int, int, int)| #[trigger] out.contains(x) implies x == c || cs.contains(
            x,
        ) by {
            let k = choose|k: int| 0 <= k < out.len() && out[k] == x;
            if k < inner.len() {
                assert(inner.contains(inner[k]));
                if x != c {
                    let j = choose|j: int| 0 <= j < before.len() && before[j] == x;
                    assert(cs[j] == x);
                }
            } else {
                assert(cs[cs.len() - 1] == x);
            }
        }
        assert forall|x: (int, int, int)| #[trigger] cs.contains(x) implies out.contains(x) by {
            let k = choose|k: int| 0 <= k < cs.len() && cs[k] == x;
            if k < before.len() {
                assert(before.contains(before[k]));
                let j = choose|j: int| 0 <= j < inner.len() && inner[j] == x;
                assert(out[j] == x);
            } else {
                assert(out[inner.len() as int] == x);
            }
        }
        let k = choose|k: int| 0 <= k < inner.len() && inner[k] == c;
        assert(out[k] == c);
    }
}

proof fn lemma_in_rank(cs: Seq<(int, int, int)>)
    ensures
        ranked(in_rank(cs)),
        forall|x: (int, int, int)| #[trigger] cs.contains(x) ==> in_rank(cs).contains(x),
    decreases cs.len(),
{
    if cs.len() > 0 {
        let before = cs.drop_last();
        lemma_in_rank(before);
        lemma_with_claim_ranks(in_rank(before), cs.last());
        assert forall|x: (int, int, int)| #[trigger] cs.contains(x) implies in_rank(cs).contains(
            x,
        ) by {
            let k = choose|k: int| 0 <= k < cs.len() && cs[k] == x;
            if k < before.len() {
                assert(before.contains(before[k]));
            }
        }
    }
}

proof fn lemma_row_claims_hold(new: Seq<(i64, i64)>, ni: int, olds: Seq<Seq<(i64, i64)>>, k: int, oi: int)
    requires
        0 <= oi < k <= olds.len(),
        may_claim(new, olds[oi]),
    ensures
        row_claims(new, ni, olds, k).contains((capped(set_overlap(new, olds[oi])), ni, oi)),
    decreases k,
{
    let out = row_claims(new, ni, olds, k);
    let c = (capped(set_overlap(new, olds[oi])), ni, oi);
    if oi == k - 1 {
        assert(out.last() == c);
        assert(out[out.len() - 1] == c);
    } else {
        lemma_row_claims_hold(new, ni, olds, k - 1, oi);
        let before = row_claims(new, ni, olds, k - 1);
        let j = choose|j: int| 0 <= j < before.len() && before[j] == c;
        assert(out[j] == c);
    }
}

proof fn lemma_claims_hold(
    news: Seq<Seq<(i64, i64)>>,
    olds: Seq<Seq<(i64, i64)>>,
    n: int,
    ni: int,
    oi: int,
)
    requires
        0 <= ni < n <= news.len(),
        0 <= oi < olds.len(),
        may_claim(news[ni], olds[oi]),
    ensures
        claims(news, olds, n).contains((capped(set_overlap(news[ni], olds[oi])), ni, oi)),
    decreases n,
{
    let c = (capped(set_overlap(news[ni], olds[oi])), ni, oi);
    let before = claims(news, olds, n - 1);
    let row = row_claims(news[n - 1], n - 1, olds, olds.len() as int);
    let out = claims(news, olds, n);
    if ni == n - 1 {
        lemma_row_claims_hold(news[ni], ni, olds, olds.len() as int, oi);
        let j = choose|j: int| 0 <= j < row.len() && row[j] == c;
        assert(out[before.len() + j] == c);
    } else {
        lemma_claims_hold(news, olds, n - 1, ni, oi);
        let j = choose|j: int| 0 <= j < before.len() && before[j] == c;
        assert(out[j] == c);
    }
}

/// Settling in rank: what is assigned has at least the overlap of the last
/// claim, what is taken is assigned, and every claim is outdone.
proof fn lemma_settled_outdoes(
    cs: Seq<(int, int, int)>,
    news: Seq<Seq<(i64, i64)>>,
    olds: Seq<Seq<(i64, i64)>>,
)
    requires
        claims_ok(cs, news, olds),
        ranked(cs),
        olds.len() <= usize::MAX,
    ensures
        ({
            let (assigned, claimed) = settled(cs, news.len(), olds.len());
            &&& forall|i: int|
                #![trigger assigned[i]]
                0 <= i < news.len() && assigned[i] is Some ==> cs.len() > 0 && holds(
                    assigned,
                    news,
                    olds,
                    i,
                    assigned[i]->0 as int,
                    cs.last().0,
                )
            &&& forall|o: int|
                #![trigger claimed[o]]
                0 <= o < olds.len() && claimed[o] ==> cs.len() > 0 && exists|i: int| #[trigger]
                    holds(assigned, news, olds, i, o, cs.last().0)
            &&& forall|k: int|
                #![trigger cs[k]]
                0 <= k < cs.len() ==> outdone(assigned, news, olds, cs[k])
        }),
    decreases cs.len(),
{
    if cs.len() > 0 {
        let before = cs.drop_last();
        let c = cs.last();
        assert(claim_ok(cs[cs.len() - 1], news, olds));
        assert forall|k: int| #![trigger before[k]] 0 <= k < before.len() implies claim_ok(
            before[k],
            news,
            olds,
        ) by {
            assert(claim_ok(cs[k], news, olds));
        }
        assert forall|a: int, b: int|
            #![trigger before[a], before[b]]
            0 <= a < b < before.len() implies goes_first(before[a], before[b]) by {
            assert(goes_first(cs[a], cs[b]));
        }
        lemma_settled_outdoes(before, news, olds);
        lemma_settled_ok(before, news, olds);
        if before.len() > 0 {
            assert(goes_first(cs[before.len() - 1], cs[cs.len() - 1]));
        }
        let (was, had) = settled(before, news.len(), olds.len());
        let (assigned, claimed) = settled(cs, news.len(), olds.len());
        let served = was[c.1] is None && !had[c.2];
        assert forall|i: int, o: int, least: int| #[trigger]
            holds(was, news, olds, i, o, least) implies holds(
            assigned,
            news,
            olds,
            i,
            o,
            least,
        ) by {}
        assert(served ==> holds(assigned, news, olds, c.1, c.2, c.0));
        assert forall|i: int| #![trigger assigned[i]] 0 <= i < news.len()
            && assigned[i] is Some implies holds(
            assigned,
            news,
            olds,
            i,
            assigned[i]->0 as int,
            c.0,
        ) by {
            if was[i] is Some {
                assert(holds(was, news, olds, i, was[i]->0 as int, before.last().0));
            }
        }
        assert forall|o: int| #![trigger claimed[o]] 0 <= o < olds.len()
            && claimed[o] implies exists|i: int| #[trigger]
            holds(assigned, news, olds, i, o, c.0) by {
            if had[o] {
                let i = choose|i: int| #[trigger]
                    holds(was, news, olds, i, o, before.last().0);
                assert(holds(assigned, news, olds, i, o, c.0));
            }
        }
        assert forall|k: int| #![trigger cs[k]] 0 <= k < cs.len() implies outdone(
            assigned,
            news,
            olds,
            cs[k],
        ) by {
            if k < before.len() {
                let x = cs[k];
                assert(before[k] == x);
                assert(outdone(was, news, olds, x));
                if exists|oi: int| #[trigger] holds(was, news, olds, x.1, oi, x.0) {
                    let oi = choose|oi: int| #[trigger] holds(was, news, olds, x.1, oi, x.0);
                    assert(holds(assigned, news, olds, x.1, oi, x.0));
                } else {
                    let ni = choose|ni: int| #[trigger] holds(was, news, olds, ni, x.2, x.0);
                    assert(holds(assigned, news, olds, ni, x.2, x.0));
                }
            } else if !served {
                if was[c.1] is Some {
                    assert(assigned[c.1] is Some);
                } else {
                    assert(claimed[c.2]);
                }
            }
        }
    }
}

/// No majority is passed over: where a new set may inherit an old speaker, one
/// of the two is in an inheritance of at least their overlap.
pub proof fn law_no_majority_is_passed_over(
    news: Seq<Seq<(i64, i64)>>,
    olds: Seq<Seq<(i64, i64)>>,
    ni: int,
    oi: int,
)
    requires
        olds.len() <= usize::MAX,
        0 <= ni < news.len(),
        0 <= oi < olds.len(),
        may_claim(news[ni], olds[oi]),
    ensures
        outdone(
            carried(news, olds),
            news,
            olds,
            (capped(set_overlap(news[ni], olds[oi])), ni, oi),
        ),
{
    let cs = claims(news, olds, news.len() as int);
    let c = (capped(set_overlap(news[ni], olds[oi])), ni, oi);
    lemma_claims_ok(news, olds, news.len() as int);
    lemma_rank_ok(cs, news, olds);
    lemma_claims_hold(news, olds, news.len() as int, ni, oi);
    lemma_in_rank(cs);
    lemma_settled_outdoes(in_rank(cs), news, olds);
    let k = choose|k: int| 0 <= k < in_rank(cs).len() && in_rank(cs)[k] == c;
    assert(outdone(carried(news, olds), news, olds, in_rank(cs)[k]));
}

/// Re-ingest carry-forward: for each new turn set, the index of the old
/// speaker it inherits, if any; best overlap first.
pub fn carry_forward(
    new_sets: &Vec<Vec<(i64, i64)>>,
    old_sets: &Vec<Vec<(i64, i64)>>,
) -> (assigned: Vec<Option<usize>>)
    ensures
        assigned@ == carried(set_views(new_sets@), set_views(old_sets@)),
{
    let ghost (nv, ov) = (set_views(new_sets@), set_views(old_sets@));
    let found: Vec<(u128, usize, usize)> = find_claims(new_sets, old_sets);
    let ranked: Vec<(u128, usize, usize)> = rank_claims(&found);
    let ghost cs = claim_views(ranked@);
    proof {
        lemma_claims_ok(nv, ov, nv.len() as int);
        lemma_rank_ok(claim_views(found@), nv, ov);
    }
    let mut assigned: Vec<Option<usize>> = Vec::new();
    let mut i: usize = 0;
    while i < new_sets.len()
        invariant
            i <= new_sets@.len(),
            assigned@ =~= Seq::new(i as nat, |j: int| None::<usize>),
        decreases new_sets@.len() - i,
    {
        assigned.push(None);
        i = i + 1;
    }
    let mut taken: Vec<bool> = Vec::new();
    i = 0;
    while i < old_sets.len()
        invariant
            i <= old_sets@.len(),
            taken@ =~= Seq::new(i as nat, |j: int| false),
        decreases old_sets@.len() - i,
    {
        taken.push(false);
        i = i + 1;
    }
    let mut k: usize = 0;
    assert(cs.take(0) =~= Seq::empty());
    while k < ranked.len()
        invariant
            k <= ranked@.len(),
            cs == claim_views(ranked@),
            claims_ok(cs, nv, ov),
            nv.len() == new_sets@.len(),
            ov.len() == old_sets@.len(),
            assigned@.len() == nv.len(),
            taken@.len() == ov.len(),
            settled(cs.take(k as int), nv.len(), ov.len()) == (assigned@, taken@),
        decreases ranked@.len() - k,
    {
        let (_, ni, oi): (u128, usize, usize) = ranked[k];
        proof {
            assert(cs.take(k + 1).drop_last() =~= cs.take(k as int));
            assert(cs.take(k + 1).last() == cs[k as int]);
            assert(claim_ok(cs[k as int], nv, ov));
        }
        if assigned[ni].is_none() && !taken[oi] {
            assigned.set(ni, Some(oi));
            taken.set(oi, true);
        }
        k = k + 1;
    }
    assert(cs.take(k as int) =~= cs);
    assigned
}

// ---------------------------------------------------------------------- laws

/// What two intervals share: nothing where one ends before the other begins, all
/// of the one that lies in the other, and from the later start to the earlier end
/// where each reaches out of the other; whichever of them is named first.
pub proof fn law_shared_time(a_start: int, a_end: int, b_start: int, b_end: int)
    ensures
        shared(a_start, a_end, b_start, b_end) == shared(b_start, b_end, a_start, a_end),
        a_end <= b_start ==> shared(a_start, a_end, b_start, b_end) == 0,
        b_start <= a_start <= a_end <= b_end ==> shared(a_start, a_end, b_start, b_end) == a_end
            - a_start,
        a_start <= b_start <= a_end <= b_end ==> shared(a_start, a_end, b_start, b_end) == a_end
            - b_start,
{
}

/// A span's speaker is that of a turn that covers some of it, as much as any
/// other turn and more than any earlier one; there is none iff no turn covers any
/// of the span.
pub proof fn law_the_speaker_covers_most(turns: Seq<TurnRow>, t_start: i64, t_end: i64) -> (i: int)
    ensures
        match speaker_of(turns, t_start, t_end) {
            Some(id) => {
                let most = shared(
                    turns[i].t_start as int,
                    turns[i].t_end as int,
                    t_start as int,
                    t_end as int,
                );
                &&& 0 <= i < turns.len()
                &&& turns[i].speaker_id == id
                &&& most > 0
                &&& forall|j: int|
                    #![trigger turns[j]]
                    0 <= j < turns.len() ==> shared(
                        turns[j].t_start as int,
                        turns[j].t_end as int,
                        t_start as int,
                        t_end as int,
                    ) <= most
                &&& forall|j: int|
                    #![trigger turns[j]]
                    0 <= j < i ==> shared(
                        turns[j].t_start as int,
                        turns[j].t_end as int,
                        t_start as int,
                        t_end as int,
                    ) < most
            },
            None => forall|j: int|
                #![trigger turns[j]]
                0 <= j < turns.len() ==> shared(
                    turns[j].t_start as int,
                    turns[j].t_end as int,
                    t_start as int,
                    t_end as int,
                ) <= 0,
        },
{
    let i = lemma_some_dominant(turns, t_start, t_end, turns.len() as int);
    if exists|i: int| is_dominant(turns, t_start, t_end, i) {
        choose|i: int| is_dominant(turns, t_start, t_end, i)
    } else {
        i
    }
}

proof fn lemma_some_dominant(turns: Seq<TurnRow>, t_start: i64, t_end: i64, n: int) -> (i: int)
    requires
        0 <= n <= turns.len(),
    ensures
        is_dominant(turns.take(n), t_start, t_end, i) || forall|j: int|
            #![trigger turns[j]]
            0 <= j < n ==> covered(turns[j], t_start, t_end) <= 0,
        n == turns.len() ==> turns.take(n) == turns,
    decreases n,
{
    assert(n == turns.len() ==> turns.take(n) =~= turns);
    if n == 0 {
        0
    } else {
        let i = lemma_some_dominant(turns, t_start, t_end, n - 1);
        let (was, now) = (turns.take(n - 1), turns.take(n));
        assert(now.drop_last() =~= was);
        assert(now[n - 1] == turns[n - 1]);
        let new = covered(turns[n - 1], t_start, t_end);
        if is_dominant(was, t_start, t_end, i) {
            assert(now[i] == was[i]);
            assert forall|j: int| #![trigger now[j]] 0 <= j < n - 1 implies covered(
                now[j],
                t_start,
                t_end,
            ) <= covered(was[i], t_start, t_end) by {
                assert(now[j] == was[j]);
            }
            if new > covered(was[i], t_start, t_end) {
                assert(is_dominant(now, t_start, t_end, n - 1));
                n - 1
            } else {
                assert forall|j: int| #![trigger now[j]] 0 <= j < i implies covered(
                    now[j],
                    t_start,
                    t_end,
                ) < covered(now[i], t_start, t_end) by {
                    assert(now[j] == was[j]);
                }
                assert(is_dominant(now, t_start, t_end, i));
                i
            }
        } else {
            if new > 0 {
                assert forall|j: int| #![trigger now[j]] 0 <= j < n - 1 implies covered(
                    now[j],
                    t_start,
                    t_end,
                ) <= 0 by {
                    assert(now[j] == turns[j]);
                }
                assert(is_dominant(now, t_start, t_end, n - 1));
            }
            n - 1
        }
    }
}

/// How much of a span the turns cover that are not the given speaker's, summed.
pub open spec fn others_share(turns: Seq<TurnRow>, t_start: int, t_end: int, primary: Option<usize>) -> int
    decreases turns.len(),
{
    if turns.len() == 0 {
        0
    } else {
        others_share(turns.drop_last(), t_start, t_end, primary) + if Some(turns.last().speaker_id)
            == primary {
            0
        } else {
            shared(turns.last().t_start as int, turns.last().t_end as int, t_start, t_end)
        }
    }
}

/// A span counts as shared where another speaker's turn covers more than a fifth
/// of it, or two turns of the same other speaker do together; it does not where
/// all other speakers together cover no more than that.
pub proof fn law_a_fifth_makes_a_second_speaker(
    turns: Seq<TurnRow>,
    t_start: i64,
    t_end: i64,
    primary: Option<usize>,
    i: int,
    j: int,
)
    requires
        t_start < t_end,
        0 <= i < j < turns.len(),
    ensures
        ({
            let share = |k: int|
                shared(turns[k].t_start as int, turns[k].t_end as int, t_start as int, t_end as int);
            &&& Some(turns[i].speaker_id) != primary && 5 * share(i) > t_end - t_start
                ==> multi_speaker(turns, t_start, t_end, primary)
            &&& turns[i].speaker_id == turns[j].speaker_id && Some(turns[i].speaker_id) != primary
                && 5 * (share(i) + share(j)) > t_end - t_start ==> multi_speaker(
                turns,
                t_start,
                t_end,
                primary,
            )
            &&& 5 * others_share(turns, t_start as int, t_end as int, primary) <= t_end - t_start
                ==> !multi_speaker(turns, t_start, t_end, primary)
        }),
{
    let id = turns[i].speaker_id;
    lemma_total_holds(turns, t_start, t_end, id, i, i);
    if turns[j].speaker_id == id {
        lemma_total_holds(turns, t_start, t_end, id, i, j);
    }
    assert forall|k: usize|
        #![trigger speaker_total(turns, t_start, t_end, k)]
        Some(k) != primary implies speaker_total(turns, t_start, t_end, k) <= others_share(
        turns,
        t_start as int,
        t_end as int,
        primary,
    ) by {
        lemma_total_of_others(turns, t_start, t_end, k, primary);
    }
}

proof fn lemma_total_holds(
    turns: Seq<TurnRow>,
    t_start: i64,
    t_end: i64,
    id: usize,
    i: int,
    j: int,
)
    requires
        0 <= i <= j < turns.len(),
        turns[i].speaker_id == id,
        turns[j].speaker_id == id,
    ensures
        speaker_total(turns, t_start, t_end, id) >= covered(turns[i], t_start, t_end) + if i < j {
            covered(turns[j], t_start, t_end)
        } else {
            0
        },
    decreases turns.len(),
{
    let before = turns.drop_last();
    lemma_total_bound(before, t_start, t_end, id);
    if j < turns.len() - 1 {
        lemma_total_holds(before, t_start, t_end, id, i, j);
    } else if i < j {
        lemma_total_holds(before, t_start, t_end, id, i, i);
    }
}

proof fn lemma_total_of_others(
    turns: Seq<TurnRow>,
    t_start: i64,
    t_end: i64,
    id: usize,
    primary: Option<usize>,
)
    requires
        Some(id) != primary,
    ensures
        speaker_total(turns, t_start, t_end, id) <= others_share(
            turns,
            t_start as int,
            t_end as int,
            primary,
        ),
    decreases turns.len(),
{
    if turns.len() > 0 {
        lemma_total_of_others(turns.drop_last(), t_start, t_end, id, primary);
    }
}

/// A new turn set may inherit a speaker iff it holds more than a nanosecond of
/// speech and the two sets share at least half of either's, to a nanosecond.
pub proof fn law_claims_need_half_of_both(new: Seq<(i64, i64)>, old_set: Seq<(i64, i64)>)
    requires
        set_overlap(new, old_set) <= u128::MAX,
    ensures
        speech(new) <= 1 ==> !may_claim(new, old_set),
        speech(new) > 1 && 2 * set_overlap(new, old_set) >= speech(new) && 2 * set_overlap(
            new,
            old_set,
        ) >= speech(old_set) ==> may_claim(new, old_set),
        2 * set_overlap(new, old_set) + 2 < speech(new) ==> !may_claim(new, old_set),
        2 * set_overlap(new, old_set) + 2 < speech(old_set) ==> !may_claim(new, old_set),
{
}

/// Whether the turns of a set run forward and do not overlap, in order.
pub open spec fn orderly(set: Seq<(i64, i64)>) -> bool {
    &&& forall|i: int| #![trigger set[i]] 0 <= i < set.len() ==> set[i].0 <= set[i].1
    &&& forall|i: int, j: int|
        #![trigger set[i], set[j]]
        0 <= i < j < set.len() ==> set[i].1 <= set[j].0
}

/// Whether no turn of one set overlaps one of the other.
pub open spec fn apart(a: Seq<(i64, i64)>, b: Seq<(i64, i64)>) -> bool {
    forall|i: int, j: int|
        #![trigger a[i], b[j]]
        0 <= i < a.len() && 0 <= j < b.len() ==> a[i].1 <= b[j].0 || b[j].1 <= a[i].0
}

proof fn lemma_interval_apart(a: (i64, i64), b: Seq<(i64, i64)>)
    requires
        forall|j: int| #![trigger b[j]] 0 <= j < b.len() ==> a.1 <= b[j].0 || b[j].1 <= a.0,
    ensures
        interval_overlap(a, b) == 0,
    decreases b.len(),
{
    if b.len() > 0 {
        assert(b[b.len() - 1] == b.last());
        assert forall|j: int| #![trigger b.drop_last()[j]] 0 <= j < b.len() - 1 implies a.1
            <= b.drop_last()[j].0 || b.drop_last()[j].1 <= a.0 by {
            assert(b.drop_last()[j] == b[j]);
        }
        lemma_interval_apart(a, b.drop_last());
    }
}

proof fn lemma_sets_apart(a: Seq<(i64, i64)>, b: Seq<(i64, i64)>)
    requires
        apart(a, b),
    ensures
        set_overlap(a, b) == 0,
    decreases a.len(),
{
    if a.len() > 0 {
        let before = a.drop_last();
        assert forall|i: int, j: int|
            #![trigger before[i], b[j]]
            0 <= i < before.len() && 0 <= j < b.len() implies before[i].1 <= b[j].0 || b[j].1
            <= before[i].0 by {
            assert(before[i] == a[i]);
        }
        lemma_sets_apart(before, b);
        assert(a[a.len() - 1] == a.last());
        lemma_interval_apart(a.last(), b);
    }
}

proof fn lemma_interval_in(b: Seq<(i64, i64)>, i: int)
    requires
        orderly(b),
        0 <= i < b.len(),
    ensures
        interval_overlap(b[i], b) == b[i].1 - b[i].0,
    decreases b.len(),
{
    let before = b.drop_last();
    assert forall|k: int| #![trigger before[k]] 0 <= k < before.len() implies before[k]
        == b[k] by {}
    if i < b.len() - 1 {
        assert(before[i] == b[i]);
        lemma_interval_in(before, i);
        assert(b[i].1 <= b[b.len() - 1].0);
    } else {
        lemma_interval_apart(b[i], before);
    }
}

proof fn lemma_self_overlap(a: Seq<(i64, i64)>, n: int)
    requires
        orderly(a),
        0 <= n <= a.len(),
    ensures
        set_overlap(a.take(n), a) == speech(a.take(n)),
        n == a.len() ==> a.take(n) == a,
    decreases n,
{
    assert(n == a.len() ==> a.take(n) =~= a);
    if n > 0 {
        lemma_self_overlap(a, n - 1);
        assert(a.take(n).drop_last() =~= a.take(n - 1));
        assert(a.take(n).last() == a[n - 1]);
        lemma_interval_in(a, n - 1);
    }
}

/// Speakers keep their identity over an unchanged re-ingest: where no two of them
/// talk at once, each turn set inherits the speaker with the same turns.
pub proof fn law_unchanged_speakers_are_kept(sets: Seq<Seq<(i64, i64)>>, i: int)
    requires
        sets.len() <= usize::MAX,
        0 <= i < sets.len(),
        forall|k: int|
            #![trigger sets[k]]
            0 <= k < sets.len() ==> orderly(sets[k]) && 2 < speech(sets[k]) <= u128::MAX,
        forall|j: int, k: int|
            #![trigger sets[j], sets[k]]
            0 <= j < sets.len() && 0 <= k < sets.len() && j != k ==> apart(sets[j], sets[k]),
    ensures
        carried(sets, sets)[i] == Some(i as usize),
{
    assert(orderly(sets[i]));
    lemma_self_overlap(sets[i], sets[i].len() as int);
    law_claims_are_exclusive_majorities(sets, sets);
    law_no_majority_is_passed_over(sets, sets, i, i);
    assert forall|j: int, k: int|
        #![trigger sets[j], sets[k]]
        0 <= j < sets.len() && 0 <= k < sets.len() && j != k implies !may_claim(
        sets[j],
        sets[k],
    ) by {
        lemma_sets_apart(sets[j], sets[k]);
    }
    let least = capped(set_overlap(sets[i], sets[i]));
    let a = carried(sets, sets);
    if exists|oi: int| #[trigger] holds(a, sets, sets, i, oi, least) {
        let oi = choose|oi: int| #[trigger] holds(a, sets, sets, i, oi, least);
        assert(a[i] is Some);
        assert(may_claim(sets[i], sets[oi]));
        assert(oi == i);
    } else {
        let ni = choose|ni: int| #[trigger] holds(a, sets, sets, ni, i, least);
        assert(a[ni] is Some);
        assert(may_claim(sets[ni], sets[i]));
        assert(ni == i);
    }
}

} // verus!
