use vstd::prelude::*;

verus! {

/// A ballot paper: candidate indices, most preferred first.
#[derive(Debug)]
pub struct Ballot(Vec<usize>);

impl View for Ballot {
    type V = Seq<usize>;

    closed spec fn view(&self) -> Seq<usize> {
        self.0@
    }
}

/// Holds of the candidates that are not listed in `removed`.
pub open spec fn kept_by(removed: Seq<usize>) -> spec_fn(usize) -> bool {
    |c: usize| !removed.contains(c)
}

/// `s` with every candidate listed in `removed` taken out, the rest in order.
pub open spec fn without(s: Seq<usize>, removed: Seq<usize>) -> Seq<usize> {
    s.filter(kept_by(removed))
}

/// What is left of `s` once `removed` is taken out comes from `s` and avoids
/// `removed`.
pub(crate) proof fn lemma_without_members(s: Seq<usize>, removed: Seq<usize>)
    ensures
        forall|k: int|
            0 <= k < without(s, removed).len() ==> !removed.contains(#[trigger] without(s, removed)[k])
                && s.contains(without(s, removed)[k]),
{
    let w = without(s, removed);
    assert forall|k: int| 0 <= k < w.len() implies !removed.contains(#[trigger] w[k]) && s.contains(w[k]) by {
        s.lemma_filter_pred(kept_by(removed), k);
        assert(w.contains(w[k]));
        s.lemma_filter_contains_rev(kept_by(removed), w[k]);
    }
}

/// Some rank is given to two different candidates of the record.
pub open spec fn has_duplicate_rank(raw: Seq<Option<usize>>) -> bool {
    exists|i: int, j: int| 0 <= i < j < raw.len() && raw[i].is_some() && raw[i] == raw[j]
}

/// The record ranks no candidate at all.
pub open spec fn ranks_nobody(raw: Seq<Option<usize>>) -> bool {
    forall|i: int| 0 <= i < raw.len() ==> raw[i].is_none()
}

/// `order` lists every candidate that `raw` ranks, and only those, by strictly
/// ascending rank.
pub open spec fn is_rank_order(raw: Seq<Option<usize>>, order: Seq<usize>) -> bool {
    &&& forall|k: int| 0 <= k < order.len() ==> order[k] < raw.len() && raw[order[k] as int].is_some()
    &&& forall|k: int, l: int|
        0 <= k < l < order.len() ==> raw[order[k] as int].unwrap() < raw[order[l] as int].unwrap()
    &&& forall|c: int| 0 <= c < raw.len() && raw[c].is_some() ==> order.contains(c as usize)
}

/// Whether `c` occurs in `list`.
fn listed(list: &[usize], c: usize) -> (r: bool)
    ensures
        r == list@.contains(c),
{
    let mut i: usize = 0;
    while i < list.len()
        invariant
            i <= list@.len(),
            forall|k: int| 0 <= k < i ==> list@[k] != c,
        decreases list@.len() - i,
    {
        if list[i] == c {
            return true;
        }
        i += 1;
    }
    false
}

/// The rank that the record gives to candidate `c`.
fn rank_of(raw: &Vec<Option<usize>>, c: usize) -> (r: usize)
    requires
        c < raw@.len(),
        raw@[c as int].is_some(),
    ensures
        r == raw@[c as int].unwrap(),
{
    match raw[c] {
        Some(p) => p,
        None => 0,
    }
}

impl Ballot {
    /// Creates a ballot from candidate indices, most preferred first.
    pub fn new(ballot: Vec<usize>) -> (r: Ballot)
        ensures
            r@ == ballot@,
    {
        Ballot(ballot)
    }

    /// The number of preferences on the ballot.
    pub fn len(&self) -> (r: usize)
        ensures
            r == self@.len(),
    {
        self.0.len()
    }

    /// The candidate at the given preference position (0 is the first preference).
    pub fn at(&self, k: usize) -> (r: usize)
        requires
            k < self@.len(),
        ensures
            r == self@[k as int],
    {
        self.0[k]
    }

    /// Takes the given candidates out of the ballot, keeping the order of the rest;
    /// `None` when nobody is left.
    pub fn remove_candidates(ballot: Ballot, to_remove: &[usize]) -> (r: Option<Ballot>)
        ensures
            without(ballot@, to_remove@).len() == 0 ==> r.is_none(),
            without(ballot@, to_remove@).len() > 0 ==> r.is_some() && r.unwrap()@ == without(
                ballot@,
                to_remove@,
            ),
    {
        let ghost s = ballot@;
        let ghost rm = to_remove@;
        let mut kept: Vec<usize> = Vec::new();
        let mut i: usize = 0;
        while i < ballot.0.len()
            invariant
                s == ballot@,
                rm == to_remove@,
                i <= s.len(),
                kept@ == without(s.subrange(0, i as int), rm),
            decreases s.len() - i,
        {
            let c = ballot.0[i];
            proof {
                let next = s.subrange(0, i + 1);
                assert(next.drop_last() == s.subrange(0, i as int));
                assert(next.last() == c);
                reveal_with_fuel(Seq::filter, 1);
            }
            if !listed(to_remove, c) {
                kept.push(c);
            }
            i += 1;
        }
        proof {
            assert(s.subrange(0, s.len() as int) == s);
        }
        if kept.len() == 0 {
            None
        } else {
            Some(Ballot(kept))
        }
    }

    /// An iterator over the candidates, most preferred first.
    pub fn iter(&self) -> (r: std::slice::Iter<'_, usize>)
        ensures
            vstd::std_specs::slice::into_iter_elts(r) == self@,
    {
        proof {
            broadcast use vstd::std_specs::slice::axiom_spec_slice_iter;
        }
        self.0.as_slice().iter()
    }

    /// Reads a ballot from a raw record that holds, for each candidate in column
    /// order, its rank or nothing. The ballot lists the ranked candidates by
    /// ascending rank. The record is handed back when a rank occurs twice or when
    /// nobody is ranked.
    pub fn from_raw_ballot(raw_ballot: Vec<Option<usize>>) -> (r: Result<Ballot, Vec<Option<usize>>>)
        ensures
            r.is_err() <==> (has_duplicate_rank(raw_ballot@) || ranks_nobody(raw_ballot@)),
            r matches Ok(b) ==> is_rank_order(raw_ballot@, b@),
            r matches Err(e) ==> e@ == raw_ballot@,
    {
        let ghost raw = raw_ballot@;
        let mut order: Vec<usize> = Vec::new();
        let mut c: usize = 0;
        while c < raw_ballot.len()
            invariant
                raw == raw_ballot@,
                c <= raw.len(),
                forall|k: int| 0 <= k < order@.len() ==> order@[k] < c && raw[order@[k] as int].is_some(),
                forall|k: int, l: int|
                    0 <= k < l < order@.len() ==> raw[order@[k] as int].unwrap() < raw[order@[l] as int].unwrap(),
                forall|j: int| 0 <= j < c && raw[j].is_some() ==> order@.contains(j as usize),
                forall|i: int, j: int| 0 <= i < j < c && raw[i].is_some() ==> raw[i] != raw[j],
            decreases raw.len() - c,
        {
            if let Some(p) = raw_ballot[c] {
                let mut pos: usize = 0;
                while pos < order.len() && rank_of(&raw_ballot, order[pos]) < p
                    invariant
                        raw == raw_ballot@,
                        c < raw.len(),
                        pos <= order@.len(),
                        forall|k: int| 0 <= k < order@.len() ==> order@[k] < c && raw[order@[k] as int].is_some(),
                        forall|k: int| 0 <= k < pos ==> raw[order@[k] as int].unwrap() < p,
                    decreases order@.len() - pos,
                {
                    pos += 1;
                }
                if pos < order.len() && rank_of(&raw_ballot, order[pos]) == p {
                    proof {
                        let i = order@[pos as int] as int;
                        assert(0 <= i < c && raw[i].is_some() && raw[i] == raw[c as int]);
                    }
                    return Err(raw_ballot);
                }
                proof {
                    if pos < order@.len() {
                        assert forall|l: int| pos <= l < order@.len() implies p < raw[order@[l] as int].unwrap() by {
                            if l > pos {
                                assert(raw[order@[pos as int] as int].unwrap() < raw[order@[l] as int].unwrap());
                            }
                        }
                    }
                }
                let ghost before = order@;
                order.insert(pos, c);
                proof {
                    assert forall|j: int| 0 <= j < c + 1 && raw[j].is_some() implies order@.contains(j as usize) by {
                        if j == c {
                            assert(order@[pos as int] == c);
                        } else {
                            let k = choose|k: int| 0 <= k < before.len() && before[k] == j as usize;
                            if k < pos {
                                assert(order@[k] == j as usize);
                            } else {
                                assert(order@[k + 1] == j as usize);
                            }
                        }
                    }
                }
            }
            c += 1;
        }
        if order.len() == 0 {
            return Err(raw_ballot);
        }
        proof {
            assert(!ranks_nobody(raw)) by {
                assert(raw[order@[0] as int].is_some());
            }
        }
        Ok(Ballot(order))
    }

    /// The most preferred candidate.
    pub fn first_pref(&self) -> (r: usize)
        requires
            self@.len() > 0,
        ensures
            r == self@[0],
    {
        self.0[0]
    }
}

/// The first candidate of `s` for which `keep` holds, if any.
pub open spec fn first_kept(s: Seq<usize>, keep: spec_fn(usize) -> bool) -> Option<usize>
    decreases s.len(),
{
    if s.len() == 0 {
        None
    } else {
        match first_kept(s.drop_last(), keep) {
            Some(x) => Some(x),
            None => if keep(s.last()) {
                Some(s.last())
            } else {
                None
            },
        }
    }
}

/// What is left of `s` once `removed` is taken out begins with the first
/// candidate of `s` that is not removed.
pub(crate) proof fn lemma_without_first(s: Seq<usize>, removed: Seq<usize>)
    ensures
        without(s, removed).len() == 0 <==> first_kept(s, kept_by(removed)) is None,
        without(s, removed).len() > 0 ==> first_kept(s, kept_by(removed)) == Some(without(s, removed)[0]),
    decreases s.len(),
{
    reveal_with_fuel(Seq::filter, 1);
    if s.len() > 0 {
        lemma_without_first(s.drop_last(), removed);
        let sub = without(s.drop_last(), removed);
        if kept_by(removed)(s.last()) {
            assert(without(s, removed) == sub.push(s.last()));
            if sub.len() > 0 {
                assert(without(s, removed)[0] == sub[0]);
            }
        } else {
            assert(without(s, removed) == sub);
        }
    }
}

/// Two tests that agree on every candidate of `s` find the same first one.
pub(crate) proof fn lemma_first_kept_agree(s: Seq<usize>, a: spec_fn(usize) -> bool, b: spec_fn(usize) -> bool)
    requires
        forall|k: int| 0 <= k < s.len() ==> a(s[k]) == b(s[k]),
    ensures
        first_kept(s, a) == first_kept(s, b),
    decreases s.len(),
{
    if s.len() > 0 {
        lemma_first_kept_agree(s.drop_last(), a, b);
    }
}

/// Candidate `k` is still in the race by `flags`.
pub open spec fn in_race(flags: Seq<bool>, k: usize) -> bool {
    k < flags.len() && !flags[k as int]
}

/// Holds of the candidates still in the race by `flags`.
pub open spec fn racing(flags: Seq<bool>) -> spec_fn(usize) -> bool {
    |k: usize| in_race(flags, k)
}

/// The first candidate of `s` still in the race by `flags`, if any.
pub open spec fn first_in_race(s: Seq<usize>, flags: Seq<bool>) -> Option<usize> {
    first_kept(s, racing(flags))
}

/// Two tests that agree on every candidate of `s` keep the same candidates.
pub(crate) proof fn lemma_filter_agree(s: Seq<usize>, a: spec_fn(usize) -> bool, b: spec_fn(usize) -> bool)
    requires
        forall|k: int| 0 <= k < s.len() ==> a(s[k]) == b(s[k]),
    ensures
        s.filter(a) == s.filter(b),
    decreases s.len(),
{
    reveal_with_fuel(Seq::filter, 1);
    if s.len() > 0 {
        lemma_filter_agree(s.drop_last(), a, b);
    }
}

proof fn lemma_rank_prefix(raw: Seq<Option<usize>>, a: Seq<usize>, b: Seq<usize>, k: int)
    requires
        is_rank_order(raw, a),
        is_rank_order(raw, b),
        0 <= k < a.len(),
        k < b.len(),
    ensures
        forall|i: int| 0 <= i <= k ==> a[i] == b[i],
    decreases k,
{
    if k > 0 {
        lemma_rank_prefix(raw, a, b, k - 1);
    }
    if a[k] != b[k] {
        assert(b.contains(a[k] as usize));
        let l = choose|l: int| 0 <= l < b.len() && b[l] == a[k];
        if l < k {
            assert(a[l] == b[l]);
            assert(raw[a[l] as int].unwrap() < raw[a[k] as int].unwrap());
        }
        assert(raw[b[k] as int].unwrap() < raw[b[l] as int].unwrap());
        assert(a.contains(b[k] as usize));
        let m = choose|m: int| 0 <= m < a.len() && a[m] == b[k];
        if m < k {
            assert(a[m] == b[m]);
            assert(raw[b[m] as int].unwrap() < raw[b[k] as int].unwrap());
        }
        assert(raw[a[k] as int].unwrap() < raw[a[m] as int].unwrap());
    }
}

/// A record has at most one rank order.
pub proof fn lemma_rank_order_unique(raw: Seq<Option<usize>>, a: Seq<usize>, b: Seq<usize>)
    requires
        is_rank_order(raw, a),
        is_rank_order(raw, b),
    ensures
        a == b,
{
    if a.len() > 0 && b.len() > 0 {
        let k = if a.len() < b.len() { a.len() - 1 } else { b.len() - 1 };
        lemma_rank_prefix(raw, a, b, k);
    }
    if a.len() < b.len() {
        let x = b[a.len() as int];
        assert(a.contains(x));
        let l = choose|l: int| 0 <= l < a.len() && a[l] == x;
        assert(a[l] == b[l]);
        assert(raw[b[l] as int].unwrap() < raw[b[a.len() as int] as int].unwrap());
    }
    if b.len() < a.len() {
        let x = a[b.len() as int];
        assert(b.contains(x));
        let l = choose|l: int| 0 <= l < b.len() && b[l] == x;
        assert(a[l] == b[l]);
        assert(raw[a[l] as int].unwrap() < raw[a[b.len() as int] as int].unwrap());
    }
    if a.len() == b.len() && a.len() > 0 {
        lemma_rank_prefix(raw, a, b, a.len() - 1);
    }
    assert(a =~= b);
}

/// `p` is a prefix of `q`.
pub open spec fn is_prefix(p: Seq<usize>, q: Seq<usize>) -> bool {
    p.len() <= q.len() && p == q.subrange(0, p.len() as int)
}

} // verus!
