//! Classification of a round of the count from its first-preference totals.
use vstd::prelude::*;

use crate::ballot_box::CountStatus;

verus! {

/// The share of the live votes that a sole leader needs to win, as the fraction
/// `numerator / denominator`.
#[derive(Debug, Clone, Copy)]
pub struct Threshold {
    pub numerator: u64,
    pub denominator: u64,
}

/// The threshold is a fraction in `[0, 1]`.
pub open spec fn threshold_valid(threshold: Threshold) -> bool {
    threshold.denominator > 0 && threshold.numerator <= threshold.denominator
}

/// `votes` out of `total` is at least the threshold's share.
pub open spec fn reaches(votes: nat, total: nat, threshold: Threshold) -> bool {
    votes * threshold.denominator >= threshold.numerator * total
}

/// The largest entry of `t`, 0 when `t` is empty.
pub open spec fn seq_max(t: Seq<nat>) -> nat
    decreases t.len(),
{
    if t.len() == 0 {
        0
    } else {
        let m = seq_max(t.drop_last());
        if t.last() > m {
            t.last()
        } else {
            m
        }
    }
}

/// The smallest non-zero entry of `t`, 0 when there is none.
pub open spec fn min_nonzero(t: Seq<nat>) -> nat
    decreases t.len(),
{
    if t.len() == 0 {
        0
    } else {
        let m = min_nonzero(t.drop_last());
        let x = t.last();
        if x == 0 {
            m
        } else if m == 0 || x < m {
            x
        } else {
            m
        }
    }
}

/// The indices at which `t` holds `v`, in ascending order.
pub open spec fn holders(t: Seq<nat>, v: nat) -> Seq<usize>
    decreases t.len(),
{
    if t.len() == 0 {
        Seq::empty()
    } else {
        let h = holders(t.drop_last(), v);
        if t.last() == v {
            h.push((t.len() - 1) as usize)
        } else {
            h
        }
    }
}

/// `r` is the outcome of a round with first-preference totals `t`, `total` live
/// votes and `flags` telling who is out of the race: a tie when nobody holds a
/// vote; else the sole leader when its share reaches the threshold; else a
/// promotion of the leaders when they are all the candidates still in the race;
/// else a runoff of the candidates with the fewest (non-zero) votes.
pub open spec fn classifies(t: Seq<nat>, total: nat, flags: Seq<bool>, threshold: Threshold, r: CountStatus) -> bool {
    let m = seq_max(t);
    let w = holders(t, m);
    let wins = w.len() == 1 && reaches(m, total, threshold);
    match r {
        CountStatus::Tie => m == 0,
        CountStatus::Winner(c) => m > 0 && wins && c == w[0],
        CountStatus::Promotion(v) => m > 0 && !wins && all_in_race_lead(t, flags, m) && v@ == w,
        CountStatus::Runoff(v) => m > 0 && !wins && !all_in_race_lead(t, flags, m) && v@ == holders(t, min_nonzero(t)),
    }
}

/// Every candidate still in the race by `flags` holds `m` votes.
pub open spec fn all_in_race_lead(t: Seq<nat>, flags: Seq<bool>, m: nat) -> bool {
    forall|c: int| 0 <= c < t.len() && c < flags.len() && !flags[c] ==> t[c] == m
}

/// Two outcomes are the same: same kind, same candidates.
pub open spec fn same_status(a: CountStatus, b: CountStatus) -> bool {
    match (a, b) {
        (CountStatus::Tie, CountStatus::Tie) => true,
        (CountStatus::Winner(x), CountStatus::Winner(y)) => x == y,
        (CountStatus::Promotion(x), CountStatus::Promotion(y)) => x@ == y@,
        (CountStatus::Runoff(x), CountStatus::Runoff(y)) => x@ == y@,
        _ => false,
    }
}

/// The outcome of a round is determined by the totals, the live count, the
/// number of candidates in the race and the threshold: classifying the same
/// state twice gives the same outcome.
pub proof fn lemma_status_deterministic(
    t: Seq<nat>,
    total: nat,
    flags: Seq<bool>,
    threshold: Threshold,
    a: CountStatus,
    b: CountStatus,
)
    requires
        classifies(t, total, flags, threshold, a),
        classifies(t, total, flags, threshold, b),
    ensures
        same_status(a, b),
{
}

pub(crate) proof fn lemma_seq_max(t: Seq<nat>)
    ensures
        forall|c: int| 0 <= c < t.len() ==> t[c] <= seq_max(t),
        seq_max(t) > 0 ==> exists|c: int| 0 <= c < t.len() && t[c] == seq_max(t),
    decreases t.len(),
{
    if t.len() > 0 {
        lemma_seq_max(t.drop_last());
        if seq_max(t) > 0 && seq_max(t) != t.last() {
            let c = choose|c: int| 0 <= c < t.drop_last().len() && t.drop_last()[c] == seq_max(t.drop_last());
            assert(t[c] == seq_max(t));
        }
        assert forall|c: int| 0 <= c < t.len() implies t[c] <= seq_max(t) by {
            if c < t.len() - 1 {
                assert(t[c] == t.drop_last()[c]);
            }
        }
    }
}

pub(crate) proof fn lemma_holders(t: Seq<nat>, v: nat)
    requires
        t.len() <= usize::MAX,
    ensures
        forall|k: int| 0 <= k < holders(t, v).len() ==> holders(t, v)[k] < t.len() && t[holders(t, v)[k] as int] == v,
        (exists|c: int| 0 <= c < t.len() && t[c] == v) ==> holders(t, v).len() > 0,
    decreases t.len(),
{
    if t.len() > 0 {
        let s = t.drop_last();
        lemma_holders(s, v);
        if exists|c: int| 0 <= c < t.len() && t[c] == v {
            let c = choose|c: int| 0 <= c < t.len() && t[c] == v;
            if c < t.len() - 1 {
                assert(s[c] == v);
            }
        }
        assert forall|k: int| 0 <= k < holders(t, v).len() implies holders(t, v)[k] < t.len() && t[holders(t, v)[k] as int] == v by {
            if k < holders(s, v).len() {
                assert(holders(t, v)[k] == holders(s, v)[k]);
                assert(t[holders(s, v)[k] as int] == s[holders(s, v)[k] as int]);
            } else {
                assert(t.last() == v);
                assert(holders(t, v)[k] == (t.len() - 1) as usize);
            }
        }
    }
}

pub(crate) proof fn lemma_min_nonzero(t: Seq<nat>)
    ensures
        (exists|c: int| 0 <= c < t.len() && t[c] > 0) ==> min_nonzero(t) > 0 && exists|c: int|
            0 <= c < t.len() && t[c] == min_nonzero(t),
        (forall|c: int| 0 <= c < t.len() ==> t[c] == 0) ==> min_nonzero(t) == 0,
    decreases t.len(),
{
    if t.len() > 0 {
        let s = t.drop_last();
        lemma_min_nonzero(s);
        if exists|c: int| 0 <= c < s.len() && s[c] > 0 {
            let c = choose|c: int| 0 <= c < s.len() && s[c] == min_nonzero(s);
            assert(t[c] == s[c]);
        } else {
            assert forall|c: int| 0 <= c < s.len() implies s[c] == 0 by {
                if s[c] > 0 {
                    assert(exists|c: int| 0 <= c < s.len() && s[c] > 0);
                }
            }
        }
        if forall|c: int| 0 <= c < t.len() ==> t[c] == 0 {
            assert forall|c: int| 0 <= c < s.len() implies s[c] == 0 by {
                assert(t[c] == 0);
            }
            assert(t[t.len() - 1] == 0);
        }
        if exists|c: int| 0 <= c < t.len() && t[c] > 0 {
            let c = choose|c: int| 0 <= c < t.len() && t[c] > 0;
            if c < t.len() - 1 {
                assert(s[c] > 0);
            }
        }
    }
}

/// `v` names at least one candidate, every one an index of `t`, and the first
/// one named holds votes.
pub open spec fn moves_votes(t: Seq<nat>, v: Seq<usize>) -> bool {
    &&& v.len() > 0
    &&& forall|k: int| 0 <= k < v.len() ==> v[k] < t.len()
    &&& t[v[0] as int] > 0
}

/// A round that does not end the count names at least one candidate, every one
/// an index of the totals, and the first one named holds votes. Redistributing
/// them therefore lowers the box's preference mass, so the count ends after at
/// most as many redistributions as that mass.
pub proof fn lemma_round_progress(t: Seq<nat>, total: nat, flags: Seq<bool>, threshold: Threshold, r: CountStatus)
    requires
        t.len() <= usize::MAX,
        classifies(t, total, flags, threshold, r),
        r is Promotion || r is Runoff,
    ensures
        r matches CountStatus::Promotion(v) ==> moves_votes(t, v@),
        r matches CountStatus::Runoff(v) ==> moves_votes(t, v@),
{
    lemma_seq_max(t);
    lemma_holders(t, seq_max(t));
    lemma_min_nonzero(t);
    lemma_holders(t, min_nonzero(t));
}

/// The indices at which `totals` holds `v`, in ascending order.
pub(crate) fn holders_of(totals: &Vec<u32>, v: u32, t: Ghost<Seq<nat>>) -> (r: Vec<usize>)
    requires
        totals@.len() == t@.len(),
        forall|c: int| 0 <= c < t@.len() ==> totals@[c] == t@[c],
    ensures
        r@ == holders(t@, v as nat),
{
    let mut r: Vec<usize> = Vec::new();
    let mut i: usize = 0;
    while i < totals.len()
        invariant
            totals@.len() == t@.len(),
            forall|c: int| 0 <= c < t@.len() ==> totals@[c] == t@[c],
            i <= t@.len(),
            r@ == holders(t@.subrange(0, i as int), v as nat),
        decreases t@.len() - i,
    {
        proof {
            let next = t@.subrange(0, i + 1);
            assert(next.drop_last() == t@.subrange(0, i as int));
            assert(next.last() == t@[i as int]);
        }
        if totals[i] == v {
            r.push(i);
        }
        i += 1;
    }
    proof {
        assert(t@.subrange(0, t@.len() as int) =~= t@);
    }
    r
}

} // verus!
