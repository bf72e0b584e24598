use vstd::prelude::*;

use crate::ballot::{
    first_in_race, has_duplicate_rank, in_race, is_prefix, is_rank_order, kept_by, lemma_filter_agree, lemma_first_kept_agree, lemma_rank_order_unique, lemma_without_first,
    lemma_without_members, racing, ranks_nobody, without, Ballot,
};
use crate::candidates::Candidates;
use crate::round::{
    all_in_race_lead, classifies, holders_of, lemma_status_deterministic, lemma_holders, lemma_min_nonzero, lemma_round_progress, lemma_seq_max,
    min_nonzero, seq_max, threshold_valid, Threshold,
};
use crate::trie::{
    ends_at, kids_mass, kids_moved, kids_routed, lemma_child_wf, lemma_descendant_wf, lemma_kids_mass, lemma_mass_empty, lemma_mass_update,
    lemma_node_at_push, lemma_moved_le, lemma_node_mass, lemma_routed_le, lemma_sum_bounds, lemma_sum_empty, lemma_sum_update, moved, node_at, node_mass, node_wf, routed,
    slot_mass, slot_total, slots_mass, slots_sum, sound_at, total_at, BallotBoxNode,
};

verus! {

/// The outcome of one round of the count, and how the count goes on.
#[derive(Debug, Clone)]
pub enum CountStatus {
    /// The candidate has won.
    Winner(usize),
    /// No live vote is left: nobody wins.
    Tie,
    /// Every candidate still in the race is level at the top: their ballots move
    /// on to their next preferences.
    Promotion(Vec<usize>),
    /// The candidates with the fewest votes leave the race.
    Runoff(Vec<usize>),
}

/// The number of votes held by a list of pending votes.
spec fn pending_sum(pending: Seq<(Ballot, u32)>) -> nat
    decreases pending.len(),
{
    if pending.len() == 0 {
        0
    } else {
        pending_sum(pending.drop_last()) + pending.last().1 as nat
    }
}

/// The preference mass of a list of pending votes: each vote counted once for
/// each preference it expresses.
spec fn pending_mass(pending: Seq<(Ballot, u32)>) -> nat
    decreases pending.len(),
{
    if pending.len() == 0 {
        0
    } else {
        pending_mass(pending.drop_last()) + pending.last().1 as nat * pending.last().0@.len()
    }
}

/// The votes of a list of pending votes that go to candidate `c`: those whose
/// first candidate in the race by `flags` is `c`.
spec fn pending_to(pending: Seq<(Ballot, u32)>, c: usize, flags: Seq<bool>) -> nat
    decreases pending.len(),
{
    if pending.len() == 0 {
        0
    } else {
        pending_to(pending.drop_last(), c, flags) + if first_in_race(pending.last().0@, flags) == Some(c) {
            pending.last().1 as nat
        } else {
            0
        }
    }
}

/// The votes of a list of pending votes that read exactly `s` once the
/// candidates out of the race by `flags` are taken out.
spec fn pending_seq(pending: Seq<(Ballot, u32)>, s: Seq<usize>, flags: Seq<bool>) -> nat
    decreases pending.len(),
{
    if pending.len() == 0 {
        0
    } else {
        pending_seq(pending.drop_last(), s, flags) + if pending.last().0@.filter(racing(flags)) == s {
            pending.last().1 as nat
        } else {
            0
        }
    }
}

/// The votes below the first `k` children of `node` that go to `c`, when the
/// path to `node` is `cur`.
spec fn routed_prefix(node: BallotBoxNode, k: int, cur: Seq<usize>, c: usize, flags: Seq<bool>) -> nat {
    match first_in_race(cur, flags) {
        Some(x) => if x == c {
            slots_sum(node.children@.subrange(0, k))
        } else {
            0
        },
        None => kids_routed(node, k, c, flags),
    }
}

/// The votes that a redistribution of the candidates `sel` (each counted at its
/// first listing) hands from the slots `slots` to candidate `c`.
spec fn sel_routed(slots: Seq<Option<BallotBoxNode>>, sel: Seq<usize>, c: usize, flags: Seq<bool>) -> nat
    decreases sel.len(),
{
    if sel.len() == 0 {
        0
    } else {
        sel_routed(slots, sel.drop_last(), c, flags) + if sel.drop_last().contains(sel.last()) {
            0
        } else {
            match slots[sel.last() as int] {
                Some(node) => routed(node, None, c, flags),
                None => 0nat,
            }
        }
    }
}

/// The ballots under the slots of the candidates `sel` (each counted at its
/// first listing) that read exactly `s` once their first preference and the
/// candidates out of the race by `flags` are taken out.
spec fn sel_moved(slots: Seq<Option<BallotBoxNode>>, sel: Seq<usize>, s: Seq<usize>, flags: Seq<bool>) -> nat
    decreases sel.len(),
{
    if sel.len() == 0 {
        0
    } else {
        sel_moved(slots, sel.drop_last(), s, flags) + if sel.drop_last().contains(sel.last()) {
            0
        } else {
            match slots[sel.last() as int] {
                Some(node) => moved(node, Seq::empty(), s, flags),
                None => 0nat,
            }
        }
    }
}

/// Every candidate named by a pending vote has an index below `n`.
spec fn pending_in_range(pending: Seq<(Ballot, u32)>, n: nat) -> bool {
    forall|k: int, j: int| 0 <= k < pending.len() && 0 <= j < pending[k].0@.len() ==> pending[k].0@[j] < n
}

/// The record cannot be read as a ballot.
pub open spec fn rejected(raw: Seq<Option<usize>>) -> bool {
    has_duplicate_rank(raw) || ranks_nobody(raw)
}

/// Candidate `c` holds the record's best (lowest) rank.
pub open spec fn ranked_first(raw: Seq<Option<usize>>, c: usize) -> bool {
    &&& c < raw.len()
    &&& raw[c as int].is_some()
    &&& forall|d: int| 0 <= d < raw.len() && raw[d].is_some() ==> raw[c as int].unwrap() <= raw[d].unwrap()
}

/// How many of the records read as a ballot whose first preference is `c`.
pub open spec fn first_choices(records: Seq<Vec<Option<usize>>>, c: usize) -> nat
    decreases records.len(),
{
    if records.len() == 0 {
        0
    } else {
        first_choices(records.drop_last(), c) + if !rejected(records.last()@) && ranked_first(records.last()@, c) {
            1nat
        } else {
            0
        }
    }
}

/// How many of the records read as the ballot `s`.
pub open spec fn ballots_reading(records: Seq<Vec<Option<usize>>>, s: Seq<usize>) -> nat
    decreases records.len(),
{
    if records.len() == 0 {
        0
    } else {
        ballots_reading(records.drop_last(), s) + if !rejected(records.last()@) && is_rank_order(records.last()@, s) {
            1nat
        } else {
            0
        }
    }
}

/// The ballot box: per candidate, the trie of the ballots that currently give
/// that candidate their first preference, with the number of live votes and the
/// candidates that cannot win.
pub struct BallotBox {
    eliminated: Vec<bool>,
    total_votes: u32,
    pushed: Ghost<nat>,
    nodes: Vec<Option<BallotBoxNode>>,
    pub candidates: Candidates,
}

/// The sum of the entries of `t`.
pub open spec fn nat_sum(t: Seq<nat>) -> nat
    decreases t.len(),
{
    if t.len() == 0 {
        0
    } else {
        nat_sum(t.drop_last()) + t.last()
    }
}

proof fn lemma_sum_as_totals(slots: Seq<Option<BallotBoxNode>>)
    ensures
        slots_sum(slots) == nat_sum(Seq::new(slots.len(), |c: int| slot_total(slots[c]))),
    decreases slots.len(),
{
    if slots.len() > 0 {
        lemma_sum_as_totals(slots.drop_last());
        let t = Seq::new(slots.len(), |c: int| slot_total(slots[c]));
        assert(t.drop_last() =~= Seq::new(slots.drop_last().len(), |c: int| slot_total(slots.drop_last()[c])));
    }
}

/// The number of `false` entries of `flags`.
pub open spec fn count_in_race(flags: Seq<bool>) -> nat {
    flags.filter(|f: bool| !f).len()
}

impl BallotBox {
    /// The box is well formed: one slot and one flag per candidate, the live total
    /// is the sum of the first-preference totals, and in every trie every node
    /// holds exactly the votes that end at it plus those held by its children.
    pub closed spec fn wf(&self) -> bool {
        let n = self.candidates@.len();
        &&& self.eliminated@.len() == n
        &&& self.nodes@.len() == n
        &&& n <= usize::MAX
        &&& self.total_votes == slots_sum(self.nodes@)
        &&& self.total_votes <= self.pushed@
        &&& forall|c: int| 0 <= c < n && (#[trigger] self.nodes@[c]) is Some ==> node_wf(self.nodes@[c]->Some_0, n)
        &&& forall|c: int| 0 <= c < n && #[trigger] self.eliminated@[c] ==> slot_total(self.nodes@[c]) == 0
    }

    /// The names of the candidates, by index.
    pub closed spec fn names(&self) -> Seq<String> {
        self.candidates@
    }

    /// Per candidate, whether it is out of the race.
    pub closed spec fn eliminated_flags(&self) -> Seq<bool> {
        self.eliminated@
    }

    /// The number of votes pushed into the box since it was created.
    pub closed spec fn pushed(&self) -> nat {
        self.pushed@
    }

    /// The number of live votes.
    pub closed spec fn live_total(&self) -> nat {
        self.total_votes as nat
    }

    /// Per candidate, the number of votes that give it their first preference.
    pub closed spec fn first_totals(&self) -> Seq<nat> {
        Seq::new(self.nodes@.len(), |c: int| slot_total(self.nodes@[c]))
    }

    /// The preference mass of the box: every stored ballot counted once for each
    /// preference it expresses. Each round that does not end the count lowers it.
    pub closed spec fn mass(&self) -> nat {
        slots_mass(self.nodes@)
    }

    /// The votes that taking out the candidates `sel` hands to candidate `c`, when
    /// `flags` tells who is out of the race: each ballot under one of them goes to
    /// the first candidate after it that is still in the race, and is exhausted
    /// when there is none.
    pub closed spec fn redistributed(&self, sel: Seq<usize>, c: usize, flags: Seq<bool>) -> nat {
        sel_routed(self.nodes@, sel, c, flags)
    }

    /// How many of the ballots stored under the candidates `sel` read exactly `s`
    /// once their first preference and the candidates out of the race by `flags`
    /// are taken out: the ballots that taking out `sel` moves to `s`. With `s`
    /// empty, the ballots that it exhausts.
    pub closed spec fn moved_votes(&self, sel: Seq<usize>, s: Seq<usize>, flags: Seq<bool>) -> nat {
        sel_moved(self.nodes@, sel, s, flags)
    }

    /// The votes that a redistribution hands to `c` from the ballots that begin
    /// with `p`, each going to its first candidate after `p` that is in the race
    /// by `flags` (the candidates of `p` itself are passed over).
    pub closed spec fn routed_below(&self, p: Seq<usize>, c: usize, flags: Seq<bool>) -> nat {
        if p.len() > 0 && p[0] < self.nodes@.len() {
            match self.nodes@[p[0] as int] {
                Some(node) => match node_at(node, p.drop_first()) {
                    Some(m) => routed(m, None, c, flags),
                    None => 0,
                },
                None => 0,
            }
        } else {
            0
        }
    }

    /// `routed_below(p, ..)` read off the next preference below `k`: a candidate
    /// in the race takes the ballots that go on to it, and the ballots that go on
    /// to a candidate out of the race move further down.
    pub open spec fn route_sum(&self, p: Seq<usize>, c: usize, flags: Seq<bool>, k: int) -> nat
        decreases k,
    {
        if k <= 0 {
            0
        } else {
            self.route_sum(p, c, flags, k - 1) + if in_race(flags, (k - 1) as usize) {
                if (k - 1) as usize == c {
                    self.beneath(p.push((k - 1) as usize))
                } else {
                    0
                }
            } else {
                self.routed_below(p.push((k - 1) as usize), c, flags)
            }
        }
    }

    /// `redistributed(sel, ..)` as a sum over the candidates of `sel`, each taken
    /// at its first listing.
    pub open spec fn routed_from(&self, sel: Seq<usize>, c: usize, flags: Seq<bool>) -> nat
        decreases sel.len(),
    {
        if sel.len() == 0 {
            0
        } else {
            self.routed_from(sel.drop_last(), c, flags) + if sel.drop_last().contains(sel.last()) {
                0
            } else {
                self.routed_below(seq![sel.last()], c, flags)
            }
        }
    }

    /// How many of the ballots that begin with `p` read exactly `s` once the path
    /// `cur` below their first preference is put in front of what follows `p`,
    /// and the candidates out of the race by `flags` are taken out.
    pub closed spec fn moved_below(&self, p: Seq<usize>, cur: Seq<usize>, s: Seq<usize>, flags: Seq<bool>) -> nat {
        if p.len() > 0 && p[0] < self.nodes@.len() {
            match self.nodes@[p[0] as int] {
                Some(node) => match node_at(node, p.drop_first()) {
                    Some(m) => moved(m, cur, s, flags),
                    None => 0,
                },
                None => 0,
            }
        } else {
            0
        }
    }

    /// `moved_below(p, cur, ..)` summed over the next preferences below `k`.
    pub open spec fn move_sum(&self, p: Seq<usize>, cur: Seq<usize>, s: Seq<usize>, flags: Seq<bool>, k: int) -> nat
        decreases k,
    {
        if k <= 0 {
            0
        } else {
            self.move_sum(p, cur, s, flags, k - 1) + self.moved_below(
                p.push((k - 1) as usize),
                cur.push((k - 1) as usize),
                s,
                flags,
            )
        }
    }

    /// `moved_votes(sel, ..)` as a sum over the candidates of `sel`, each taken at
    /// its first listing.
    pub open spec fn moved_from(&self, sel: Seq<usize>, s: Seq<usize>, flags: Seq<bool>) -> nat
        decreases sel.len(),
    {
        if sel.len() == 0 {
            0
        } else {
            self.moved_from(sel.drop_last(), s, flags) + if sel.drop_last().contains(sel.last()) {
                0
            } else {
                self.moved_below(seq![sel.last()], Seq::empty(), s, flags)
            }
        }
    }

    /// How many of the stored ballots begin with the preferences `s`.
    pub closed spec fn beneath(&self, s: Seq<usize>) -> nat {
        if s.len() > 0 && s[0] < self.nodes@.len() {
            match self.nodes@[s[0] as int] {
                Some(node) => match node_at(node, s.drop_first()) {
                    Some(m) => m.total_beneath as nat,
                    None => 0,
                },
                None => 0,
            }
        } else {
            0
        }
    }

    /// How many of the stored ballots begin with `s` followed by one of the
    /// candidates below `k`.
    pub open spec fn beneath_sum(&self, s: Seq<usize>, k: int) -> nat
        decreases k,
    {
        if k <= 0 {
            0
        } else {
            self.beneath_sum(s, k - 1) + self.beneath(s.push((k - 1) as usize))
        }
    }

    /// How many of the stored ballots read exactly `s`.
    pub closed spec fn votes(&self, s: Seq<usize>) -> nat {
        if s.len() > 0 && s[0] < self.nodes@.len() {
            match self.nodes@[s[0] as int] {
                Some(node) => ends_at(node, s.drop_first()),
                None => 0,
            }
        } else {
            0
        }
    }

    /// No vote is ever created by counting: the live votes never exceed those
    /// pushed into the box, whatever promotions and runoffs came in between.
    pub proof fn lemma_conservation(&self)
        requires
            self.wf(),
        ensures
            self.live_total() <= self.pushed(),
            self.live_total() == nat_sum(self.first_totals()),
    {
        self.lemma_shape();
    }

    /// What a well-formed box guarantees of its views: one total and one flag
    /// per candidate, the live total is the sum of the first-preference totals,
    /// and a candidate out of the race holds no first preference.
    pub proof fn lemma_shape(&self)
        requires
            self.wf(),
        ensures
            self.first_totals().len() == self.names().len(),
            self.eliminated_flags().len() == self.names().len(),
            self.live_total() == nat_sum(self.first_totals()),
            forall|c: int|
                0 <= c < self.names().len() && #[trigger] self.eliminated_flags()[c] ==> self.first_totals()[c] == 0,
    {
        lemma_sum_as_totals(self.nodes@);
        assert(self.first_totals() =~= Seq::new(self.nodes@.len(), |c: int| slot_total(self.nodes@[c])));
    }

    /// The counts of the trie agree everywhere: the ballots that begin with `s`
    /// are those that end there plus those that go on to each candidate.
    pub proof fn lemma_trie_invariant(&self, s: Seq<usize>)
        requires
            self.wf(),
            s.len() > 0,
        ensures
            self.beneath(s) == self.votes(s) + self.beneath_sum(s, self.names().len() as int),
    {
        let n = self.names().len();
        let rest = s.drop_first();
        assert forall|c: usize| #[trigger] s.push(c).drop_first() == rest.push(c) && s.push(c)[0] == s[0] by {
            assert(s.push(c).drop_first() =~= rest.push(c));
        }
        if s[0] < n {
            if let Some(node) = self.nodes@[s[0] as int] {
                assert(sound_at(node, rest, n));
                match node_at(node, rest) {
                    Some(m) => {
                        assert forall|k: int| 0 <= k <= n implies #[trigger] self.beneath_sum(s, k) == slots_sum(
                            m.children@.subrange(0, k),
                        ) by {
                            self.lemma_beneath_sum(s, node, m, k);
                        }
                        assert(m.children@.subrange(0, n as int) == m.children@);
                    },
                    None => {
                        self.lemma_beneath_sum_zero(s, n as int);
                    },
                }
            } else {
                self.lemma_beneath_sum_zero(s, n as int);
            }
        } else {
            self.lemma_beneath_sum_zero(s, n as int);
        }
    }

    proof fn lemma_beneath_sum(&self, s: Seq<usize>, node: BallotBoxNode, m: BallotBoxNode, k: int)
        requires
            self.wf(),
            s.len() > 0,
            s[0] < self.nodes@.len(),
            self.nodes@[s[0] as int] == Some(node),
            node_at(node, s.drop_first()) == Some(m),
            m.children@.len() == self.names().len(),
            0 <= k <= m.children@.len(),
        ensures
            self.beneath_sum(s, k) == slots_sum(m.children@.subrange(0, k)),
        decreases k,
    {
        if k > 0 {
            self.lemma_beneath_sum(s, node, m, k - 1);
            let c = (k - 1) as usize;
            let sc = s.push(c);
            assert(sc.drop_first() =~= s.drop_first().push(c));
            assert(sc[0] == s[0]);
            lemma_node_at_push(node, s.drop_first(), c);
            assert(m.children@.subrange(0, k).drop_last() == m.children@.subrange(0, k - 1));
        }
    }

    proof fn lemma_beneath_sum_zero(&self, s: Seq<usize>, k: int)
        requires
            self.wf(),
            s.len() > 0,
            !(s[0] < self.nodes@.len() && self.nodes@[s[0] as int] is Some && node_at(
                self.nodes@[s[0] as int]->Some_0,
                s.drop_first(),
            ) is Some),
            forall|c: usize| #[trigger] s.push(c).drop_first() == s.drop_first().push(c) && s.push(c)[0] == s[0],
        ensures
            self.beneath_sum(s, k) == 0,
            self.votes(s) == 0,
        decreases k,
    {
        if k > 0 {
            self.lemma_beneath_sum_zero(s, k - 1);
            let c = (k - 1) as usize;
            let sc = s.push(c);
            assert(sc.drop_first() == s.drop_first().push(c) && sc[0] == s[0]);
            if s[0] < self.nodes@.len() {
                if let Some(node) = self.nodes@[s[0] as int] {
                    lemma_node_at_push(node, s.drop_first(), c);
                }
            }
        }
    }

    /// The votes a redistribution of `sel` hands to `c` are those it hands on from
    /// each selected candidate's own ballots.
    pub proof fn lemma_redistributed(&self, sel: Seq<usize>, c: usize, flags: Seq<bool>)
        requires
            self.wf(),
            forall|k: int| 0 <= k < sel.len() ==> sel[k] < self.names().len(),
        ensures
            self.redistributed(sel, c, flags) == self.routed_from(sel, c, flags),
        decreases sel.len(),
    {
        if sel.len() > 0 {
            self.lemma_redistributed(sel.drop_last(), c, flags);
            let x = sel.last();
            assert(seq![x].drop_first() == Seq::<usize>::empty());
            if x < self.nodes@.len() {
                if let Some(node) = self.nodes@[x as int] {
                    assert(node_at(node, Seq::empty()) == Some(node));
                }
            }
        }
    }

    /// The ballots a redistribution of `sel` moves to `s` are those it moves from
    /// each selected candidate's own ballots.
    pub proof fn lemma_moved_votes(&self, sel: Seq<usize>, s: Seq<usize>, flags: Seq<bool>)
        requires
            self.wf(),
            forall|k: int| 0 <= k < sel.len() ==> sel[k] < self.names().len(),
        ensures
            self.moved_votes(sel, s, flags) == self.moved_from(sel, s, flags),
        decreases sel.len(),
    {
        if sel.len() > 0 {
            self.lemma_moved_votes(sel.drop_last(), s, flags);
            let x = sel.last();
            assert(seq![x].drop_first() == Seq::<usize>::empty());
            if let Some(node) = self.nodes@[x as int] {
                assert(node_at(node, Seq::empty()) == Some(node));
            }
        }
    }

    /// Ballots that hold no vote move nowhere.
    pub proof fn lemma_moved_below_empty(&self, p: Seq<usize>, cur: Seq<usize>, s: Seq<usize>, flags: Seq<bool>)
        requires
            self.wf(),
            self.beneath(p) == 0,
        ensures
            self.moved_below(p, cur, s, flags) == 0,
    {
        if p.len() > 0 && p[0] < self.nodes@.len() {
            if let Some(node) = self.nodes@[p[0] as int] {
                if let Some(m) = node_at(node, p.drop_first()) {
                    lemma_descendant_wf(node, p.drop_first(), self.names().len());
                    lemma_moved_le(m, cur, s, flags, self.names().len());
                }
            }
        }
    }

    /// One step of a move: the ballots beginning with `p` that end there count
    /// when `cur` alone reads `s`, and the others are read off their next
    /// preference.
    pub proof fn lemma_moved_below_step(&self, p: Seq<usize>, cur: Seq<usize>, s: Seq<usize>, flags: Seq<bool>)
        requires
            self.wf(),
            p.len() > 0,
        ensures
            self.moved_below(p, cur, s, flags) == (if cur.filter(racing(flags)) == s {
                self.votes(p)
            } else {
                0
            }) + self.move_sum(p, cur, s, flags, self.names().len() as int),
    {
        let n = self.names().len();
        self.lemma_move_sum(p, cur, s, flags, n as int);
        if p[0] < self.nodes@.len() {
            if let Some(node) = self.nodes@[p[0] as int] {
                if let Some(m) = node_at(node, p.drop_first()) {
                    assert(sound_at(node, p.drop_first(), n));
                    assert(m.children@.len() == n);
                }
            }
        }
    }

    proof fn lemma_move_sum(&self, p: Seq<usize>, cur: Seq<usize>, s: Seq<usize>, flags: Seq<bool>, k: int)
        requires
            self.wf(),
            p.len() > 0,
            0 <= k <= self.names().len(),
        ensures
            self.move_sum(p, cur, s, flags, k) == if p[0] < self.nodes@.len() && self.nodes@[p[0] as int] is Some
                && node_at(self.nodes@[p[0] as int]->Some_0, p.drop_first()) is Some {
                kids_moved(node_at(self.nodes@[p[0] as int]->Some_0, p.drop_first())->Some_0, k, cur, s, flags)
            } else {
                0
            },
        decreases k,
    {
        if k > 0 {
            self.lemma_move_sum(p, cur, s, flags, k - 1);
            let x = (k - 1) as usize;
            let q = p.push(x);
            assert(q.drop_first() =~= p.drop_first().push(x));
            assert(q[0] == p[0]);
            if p[0] < self.nodes@.len() {
                if let Some(node) = self.nodes@[p[0] as int] {
                    lemma_node_at_push(node, p.drop_first(), x);
                    if let Some(m) = node_at(node, p.drop_first()) {
                        assert(sound_at(node, p.drop_first(), self.names().len()));
                        assert(m.children@.len() == self.names().len());
                        match m.children@[x as int] {
                            Some(ch) => {
                                assert(node_at(node, q.drop_first()) == Some(ch));
                                assert(self.moved_below(q, cur.push(x), s, flags) == moved(ch, cur.push(x), s, flags));
                                assert(kids_moved(m, k, cur, s, flags) == kids_moved(m, k - 1, cur, s, flags) + moved(
                                    ch,
                                    cur.push(x),
                                    s,
                                    flags,
                                ));
                            },
                            None => {
                                assert(node_at(node, q.drop_first()) is None);
                                assert(self.moved_below(q, cur.push(x), s, flags) == 0);
                                assert(kids_moved(m, k, cur, s, flags) == kids_moved(m, k - 1, cur, s, flags));
                            },
                        }
                    } else {
                        assert(node_at(node, q.drop_first()) is None);
                        assert(self.moved_below(q, cur.push(x), s, flags) == 0);
                    }
                } else {
                    assert(self.moved_below(q, cur.push(x), s, flags) == 0);
                }
            } else {
                assert(self.moved_below(q, cur.push(x), s, flags) == 0);
            }
        }
    }

    /// Ballots that hold no vote hand none on.
    pub proof fn lemma_routed_below_empty(&self, p: Seq<usize>, c: usize, flags: Seq<bool>)
        requires
            self.wf(),
            self.beneath(p) == 0,
        ensures
            self.routed_below(p, c, flags) == 0,
    {
        if p.len() > 0 && p[0] < self.nodes@.len() {
            if let Some(node) = self.nodes@[p[0] as int] {
                if let Some(m) = node_at(node, p.drop_first()) {
                    assert(sound_at(node, p.drop_first(), self.names().len()));
                    lemma_descendant_wf(node, p.drop_first(), self.names().len());
                    lemma_routed_le(m, None, c, flags, self.names().len());
                }
            }
        }
    }

    /// One step of a redistribution: what the ballots beginning with `p` hand to
    /// `c` is read off their next preference.
    pub proof fn lemma_routed_below_step(&self, p: Seq<usize>, c: usize, flags: Seq<bool>)
        requires
            self.wf(),
            p.len() > 0,
        ensures
            self.routed_below(p, c, flags) == self.route_sum(p, c, flags, self.names().len() as int),
    {
        let n = self.names().len();
        self.lemma_route_sum(p, c, flags, n as int);
        if p[0] < self.nodes@.len() {
            if let Some(node) = self.nodes@[p[0] as int] {
                if let Some(m) = node_at(node, p.drop_first()) {
                    assert(sound_at(node, p.drop_first(), n));
                    assert(m.children@.len() == n);
                }
            }
        }
    }

    proof fn lemma_route_sum(&self, p: Seq<usize>, c: usize, flags: Seq<bool>, k: int)
        requires
            self.wf(),
            p.len() > 0,
            0 <= k <= self.names().len(),
        ensures
            self.route_sum(p, c, flags, k) == if p[0] < self.nodes@.len() && self.nodes@[p[0] as int] is Some
                && node_at(self.nodes@[p[0] as int]->Some_0, p.drop_first()) is Some {
                kids_routed(node_at(self.nodes@[p[0] as int]->Some_0, p.drop_first())->Some_0, k, c, flags)
            } else {
                0
            },
        decreases k,
    {
        if k > 0 {
            self.lemma_route_sum(p, c, flags, k - 1);
            let x = (k - 1) as usize;
            let q = p.push(x);
            assert(q.drop_first() =~= p.drop_first().push(x));
            assert(q[0] == p[0]);
            if p[0] < self.nodes@.len() {
                if let Some(node) = self.nodes@[p[0] as int] {
                    lemma_node_at_push(node, p.drop_first(), x);
                    if let Some(m) = node_at(node, p.drop_first()) {
                        assert(sound_at(node, p.drop_first(), self.names().len()));
                        assert(m.children@.len() == self.names().len());
                        match m.children@[x as int] {
                            Some(ch) => {
                                assert(node_at(node, q.drop_first()) == Some(ch));
                                assert(self.beneath(q) == ch.total_beneath);
                                assert(self.routed_below(q, c, flags) == routed(ch, None, c, flags));
                                if in_race(flags, x) {
                                    assert(routed(ch, Some(x), c, flags) == if x == c {
                                        ch.total_beneath as nat
                                    } else {
                                        0
                                    });
                                }
                                assert(kids_routed(m, k, c, flags) == kids_routed(m, k - 1, c, flags) + routed(
                                    ch,
                                    if in_race(flags, x) {
                                        Some(x)
                                    } else {
                                        None
                                    },
                                    c,
                                    flags,
                                ));
                            },
                            None => {
                                assert(node_at(node, q.drop_first()) is None);
                                assert(self.beneath(q) == 0);
                                assert(self.routed_below(q, c, flags) == 0);
                                assert(kids_routed(m, k, c, flags) == kids_routed(m, k - 1, c, flags));
                            },
                        }
                    } else {
                        assert(node_at(node, q.drop_first()) is None);
                        assert(self.beneath(q) == 0);
                        assert(self.routed_below(q, c, flags) == 0);
                    }
                } else {
                    assert(self.beneath(q) == 0);
                    assert(self.routed_below(q, c, flags) == 0);
                }
            } else {
                assert(self.beneath(q) == 0);
                assert(self.routed_below(q, c, flags) == 0);
            }
        }
    }

    /// A round that does not end the count lowers the preference mass: `after`
    /// is `self` once the candidates the round names were promoted or run off
    /// (their contracts give `after.mass() + first_totals()[v[0]] <= mass()`).
    /// The mass starts at the number of preferences pushed (see `push`), so a
    /// count makes at most that many redistributions before it ends.
    pub proof fn lemma_round_shrinks(&self, after: BallotBox, threshold: Threshold, r: CountStatus)
        requires
            self.wf(),
            classifies(self.first_totals(), self.live_total(), self.eliminated_flags(), threshold, r),
            r matches CountStatus::Runoff(v) ==> after.mass() + self.first_totals()[v@[0] as int] <= self.mass(),
            r matches CountStatus::Promotion(v) ==> after.mass() + self.first_totals()[v@[0] as int] <= self.mass(),
            r is Runoff || r is Promotion,
        ensures
            after.mass() < self.mass(),
    {
        self.lemma_shape();
        lemma_round_progress(self.first_totals(), self.live_total(), self.eliminated_flags(), threshold, r);
    }

    /// Creates an empty box for the given candidates, all of them out of the race
    /// until a ballot gives them a first preference.
    pub fn new(candidates: Candidates) -> (r: Self)
        ensures
            r.wf(),
            r.names() == candidates@,
            r.live_total() == 0,
            r.pushed() == 0,
            r.mass() == 0,
            forall|s: Seq<usize>| r.beneath(s) == 0,
            r.eliminated_flags() == Seq::new(candidates@.len(), |c: int| true),
            forall|c: int| 0 <= c < candidates@.len() ==> r.first_totals()[c] == 0,
            forall|s: Seq<usize>| r.votes(s) == 0,
    {
        let n = candidates.len();
        let mut eliminated: Vec<bool> = Vec::new();
        let mut nodes: Vec<Option<BallotBoxNode>> = Vec::new();
        let mut i: usize = 0;
        while i < n
            invariant
                i <= n,
                eliminated@ == Seq::new(i as nat, |c: int| true),
                nodes@.len() == i,
                forall|k: int| 0 <= k < i ==> nodes@[k].is_none(),
            decreases n - i,
        {
            eliminated.push(true);
            nodes.push(None);
            i += 1;
        }
        proof {
            lemma_sum_empty(nodes@);
            lemma_mass_empty(nodes@);
        }
        BallotBox { eliminated, total_votes: 0, pushed: Ghost(0), nodes, candidates }
    }

    /// The number of live votes.
    pub fn total_votes(&self) -> (r: u32)
        ensures
            r == self.live_total(),
    {
        self.total_votes
    }

    /// The candidates that are out of the race, in ascending order.
    fn eliminated(&self) -> (r: Vec<usize>)
        requires
            self.wf(),
        ensures
            forall|c: usize| r@.contains(c) <==> (c < self.candidates@.len() && self.eliminated@[c as int]),
            forall|k: int, l: int| 0 <= k < l < r@.len() ==> r@[k] < r@[l],
    {
        let mut eliminated: Vec<usize> = Vec::new();
        let mut i: usize = 0;
        while i < self.eliminated.len()
            invariant
                self.wf(),
                i <= self.eliminated@.len(),
                forall|c: usize| eliminated@.contains(c) <==> (c < i && self.eliminated@[c as int]),
                forall|k: int, l: int| 0 <= k < l < eliminated@.len() ==> eliminated@[k] < eliminated@[l],
                forall|k: int| 0 <= k < eliminated@.len() ==> eliminated@[k] < i,
            decreases self.eliminated@.len() - i,
        {
            if self.eliminated[i] {
                let ghost before = eliminated@;
                eliminated.push(i);
                proof {
                    assert forall|c: usize| eliminated@.contains(c) <==> (c < i + 1 && self.eliminated@[c as int]) by {
                        if c == i {
                            assert(eliminated@[before.len() as int] == c);
                        } else {
                            if eliminated@.contains(c) {
                                let k = choose|k: int| 0 <= k < eliminated@.len() && eliminated@[k] == c;
                                assert(before[k] == c);
                                assert(before.contains(c));
                            }
                            if c < i && self.eliminated@[c as int] {
                                assert(before.contains(c));
                                let k = choose|k: int| 0 <= k < before.len() && before[k] == c;
                                assert(eliminated@[k] == c);
                            }
                        }
                    }
                }
            }
            i += 1;
        }
        eliminated
    }

    /// The number of candidates still in the race.
    pub fn remaining(&self) -> (r: usize)
        requires
            self.wf(),
        ensures
            r == count_in_race(self.eliminated_flags()),
    {
        let ghost flags = self.eliminated@;
        let mut count: usize = 0;
        let mut i: usize = 0;
        while i < self.eliminated.len()
            invariant
                self.wf(),
                flags == self.eliminated@,
                i <= flags.len(),
                count == count_in_race(flags.subrange(0, i as int)),
                count <= i,
            decreases flags.len() - i,
        {
            proof {
                let next = flags.subrange(0, i + 1);
                assert(next.drop_last() == flags.subrange(0, i as int));
                assert(next.last() == flags[i as int]);
                reveal_with_fuel(Seq::filter, 1);
            }
            if !self.eliminated[i] {
                count += 1;
            }
            i += 1;
        }
        proof {
            assert(flags.subrange(0, flags.len() as int) == flags);
        }
        count
    }

    /// Adds `quantity` copies of the ballot, and puts its first preference in the
    /// race.
    pub fn push(&mut self, ballot: Ballot, quantity: u32)
        requires
            old(self).wf(),
            ballot@.len() > 0,
            forall|k: int| 0 <= k < ballot@.len() ==> ballot@[k] < old(self).names().len(),
            old(self).live_total() + quantity <= u32::MAX,
        ensures
            final(self).wf(),
            final(self).names() == old(self).names(),
            final(self).pushed() == old(self).pushed() + quantity,
            final(self).live_total() == old(self).live_total() + quantity,
            final(self).mass() == old(self).mass() + quantity * ballot@.len(),
            final(self).eliminated_flags() == old(self).eliminated_flags().update(ballot@[0] as int, false),
            final(self).first_totals() == old(self).first_totals().update(
                ballot@[0] as int,
                (old(self).first_totals()[ballot@[0] as int] + quantity) as nat,
            ),
            forall|s: Seq<usize>|
                #[trigger] final(self).votes(s) == old(self).votes(s) + if s == ballot@ {
                    quantity as nat
                } else {
                    0
                },
            forall|s: Seq<usize>|
                s.len() > 0 ==> #[trigger] final(self).beneath(s) == old(self).beneath(s) + if is_prefix(s, ballot@) {
                    quantity as nat
                } else {
                    0
                },
    {
        self.pushed = Ghost((self.pushed@ + quantity) as nat);
        self.insert(ballot, quantity);
    }

    /// Stores `quantity` copies of the ballot without counting them as newly
    /// pushed: the votes are already accounted for.
    fn insert(&mut self, ballot: Ballot, quantity: u32)
        requires
            old(self).wf(),
            ballot@.len() > 0,
            forall|k: int| 0 <= k < ballot@.len() ==> ballot@[k] < old(self).names().len(),
            old(self).live_total() + quantity <= u32::MAX,
            old(self).live_total() + quantity <= old(self).pushed(),
        ensures
            final(self).wf(),
            final(self).names() == old(self).names(),
            final(self).pushed() == old(self).pushed(),
            final(self).live_total() == old(self).live_total() + quantity,
            final(self).mass() == old(self).mass() + quantity * ballot@.len(),
            final(self).eliminated_flags() == old(self).eliminated_flags().update(ballot@[0] as int, false),
            final(self).first_totals() == old(self).first_totals().update(
                ballot@[0] as int,
                (old(self).first_totals()[ballot@[0] as int] + quantity) as nat,
            ),
            forall|s: Seq<usize>|
                #[trigger] final(self).votes(s) == old(self).votes(s) + if s == ballot@ {
                    quantity as nat
                } else {
                    0
                },
            forall|s: Seq<usize>|
                s.len() > 0 ==> #[trigger] final(self).beneath(s) == old(self).beneath(s) + if is_prefix(s, ballot@) {
                    quantity as nat
                } else {
                    0
                },
    {
        let ghost pre = *self;
        let n = self.candidates.len();
        let first = ballot.first_pref();
        self.eliminated.set(first, false);
        proof {
            lemma_sum_bounds(pre.nodes@, first as int);
        }
        self.total_votes = self.total_votes + quantity;
        let mut slot: Option<BallotBoxNode> = None;
        self.nodes.set_and_swap(first, &mut slot);
        let mut node = match slot {
            Some(existing) => existing,
            None => BallotBoxNode::new(n),
        };
        let ghost node_pre = node;
        node.push(&ballot, 1, quantity, n);
        let ghost node_post = node;
        let mut back = Some(node);
        self.nodes.set_and_swap(first, &mut back);
        proof {
            let post = *self;
            assert(post.nodes@ == pre.nodes@.update(first as int, Some(node_post)));
            lemma_sum_update(pre.nodes@, first as int, Some(node_post));
            lemma_mass_update(pre.nodes@, first as int, Some(node_post));
            assert(slot_mass(pre.nodes@[first as int]) == node_mass(node_pre));
            let b = ballot@;
            assert(b.subrange(1, b.len() as int) == b.drop_first());
            assert forall|c: int| 0 <= c < n && (#[trigger] post.nodes@[c]) is Some implies node_wf(post.nodes@[c]->Some_0, n as nat) by {
                if c != first {
                    assert(pre.nodes@[c] == post.nodes@[c]);
                }
            }
            assert(post.first_totals() =~= pre.first_totals().update(
                first as int,
                (pre.first_totals()[first as int] + quantity) as nat,
            ));
            assert forall|s: Seq<usize>| #[trigger] post.votes(s) == pre.votes(s) + if s == b {
                quantity as nat
            } else {
                0
            } by {
                if s.len() > 0 && s[0] == first {
                    let rest = s.drop_first();
                    assert(post.votes(s) == ends_at(node_post, rest));
                    if slot is None {
                        if rest.len() > 0 {
                            assert(node_at(node_pre, rest).is_none());
                        }
                        assert(ends_at(node_pre, rest) == 0);
                    }
                    assert(pre.votes(s) == ends_at(node_pre, rest));
                    if rest == b.drop_first() {
                        assert forall|k: int| 0 <= k < s.len() implies s[k] == b[k] by {
                            if k > 0 {
                                assert(s[k] == rest[k - 1]);
                            }
                        }
                        assert(s =~= b);
                    } else {
                        assert(s != b);
                    }
                } else {
                    assert(post.votes(s) == pre.votes(s));
                    assert(s != b);
                }
            }
            assert forall|s: Seq<usize>| s.len() > 0 implies #[trigger] post.beneath(s) == pre.beneath(s) + if is_prefix(s, b) {
                quantity as nat
            } else {
                0
            } by {
                let rest = s.drop_first();
                let br = b.subrange(1, b.len() as int);
                if s[0] == first {
                    assert(post.beneath(s) == total_at(node_post, rest));
                    if slot is None {
                        if rest.len() > 0 {
                            assert(node_at(node_pre, rest).is_none());
                        }
                        assert(node_at(node_pre, rest).is_none() || rest.len() == 0);
                    }
                    assert(pre.beneath(s) == total_at(node_pre, rest));
                    assert(total_at(node_post, rest) == total_at(node_pre, rest) + if is_prefix(rest, br) {
                        quantity as nat
                    } else {
                        0
                    });
                    if is_prefix(rest, br) {
                        assert(s =~= b.subrange(0, s.len() as int)) by {
                            assert forall|k: int| 0 <= k < s.len() implies s[k] == b[k] by {
                                if k > 0 {
                                    assert(s[k] == rest[k - 1]);
                                    assert(rest[k - 1] == br.subrange(0, rest.len() as int)[k - 1]);
                                }
                            }
                        }
                    } else if is_prefix(s, b) {
                        assert(rest =~= br.subrange(0, rest.len() as int)) by {
                            assert forall|k: int| 0 <= k < rest.len() implies rest[k] == br[k] by {
                                assert(s[k + 1] == b.subrange(0, s.len() as int)[k + 1]);
                            }
                        }
                    }
                } else {
                    assert(post.beneath(s) == pre.beneath(s));
                    if is_prefix(s, b) {
                        assert(s[0] == b.subrange(0, s.len() as int)[0]);
                    }
                }
            }
        }
    }

    /// Lists the ballots held below `node` as pending votes: each node with
    /// ballots ending at it gives the path from `node` down to it (`current`
    /// leads to `node`) and their number.
    fn distribute(
        node: &BallotBoxNode,
        current: Vec<usize>,
        adjusted_votes: &mut Vec<(Ballot, u32)>,
        n: Ghost<nat>,
    )
        requires
            node_wf(*node, n@),
            forall|k: int| 0 <= k < current@.len() ==> current@[k] < n@,
            pending_in_range(old(adjusted_votes)@, n@),
        ensures
            final(adjusted_votes)@.len() >= old(adjusted_votes)@.len(),
            final(adjusted_votes)@.subrange(0, old(adjusted_votes)@.len() as int) == old(adjusted_votes)@,
            pending_in_range(final(adjusted_votes)@, n@),
            pending_sum(final(adjusted_votes)@) == pending_sum(old(adjusted_votes)@) + node.total_beneath,
            pending_mass(final(adjusted_votes)@) == pending_mass(old(adjusted_votes)@) + node_mass(*node)
                - node.total_beneath + current@.len() * node.total_beneath,
            forall|c: usize, flags: Seq<bool>|
                #[trigger] pending_to(final(adjusted_votes)@, c, flags) == pending_to(old(adjusted_votes)@, c, flags)
                    + routed(*node, first_in_race(current@, flags), c, flags),
            forall|s: Seq<usize>, flags: Seq<bool>|
                #[trigger] pending_seq(final(adjusted_votes)@, s, flags) == pending_seq(old(adjusted_votes)@, s, flags)
                    + moved(*node, current@, s, flags),
        decreases node,
    {
        let ghost start = pending_sum(adjusted_votes@);
        let ghost mass_start = pending_mass(adjusted_votes@);
        let ghost depth = current@.len();
        let ghost cur = current@;
        let ghost adjusted_start = adjusted_votes@;
        let ghost slots = node.children@;
        proof {
            assert(node_at(*node, Seq::empty()) == Some(*node));
            assert(sound_at(*node, Seq::empty(), n@));
        }
        let mut c: usize = 0;
        while c < node.children.len()
            invariant
                node_wf(*node, n@),
                slots == node.children@,
                slots.len() == n@,
                c <= slots.len(),
                forall|k: int| 0 <= k < current@.len() ==> current@[k] < n@,
                pending_in_range(adjusted_votes@, n@),
                pending_sum(adjusted_votes@) == start + slots_sum(slots.subrange(0, c as int)),
                depth == current@.len(),
                cur == current@,
                adjusted_votes@.len() >= adjusted_start.len(),
                forall|s: Seq<usize>, flags: Seq<bool>|
                    #[trigger] pending_seq(adjusted_votes@, s, flags) == pending_seq(adjusted_start, s, flags)
                        + kids_moved(*node, c as int, cur, s, flags),
                adjusted_votes@.subrange(0, adjusted_start.len() as int) == adjusted_start,
                forall|to: usize, flags: Seq<bool>|
                    #[trigger] pending_to(adjusted_votes@, to, flags) == pending_to(adjusted_start, to, flags)
                        + routed_prefix(*node, c as int, cur, to, flags),
                pending_mass(adjusted_votes@) == mass_start + kids_mass(*node, c as int) + depth * slots_sum(
                    slots.subrange(0, c as int),
                ),
            decreases slots.len() - c,
        {
            proof {
                assert(slots.subrange(0, c + 1).drop_last() == slots.subrange(0, c as int));
            }
            match &node.children[c] {
                Some(child) => {
                    proof {
                        lemma_child_wf(*node, n@, c);
                        assert(decreases_to!(node.children => node.children[c as int]));
                    }
                    let mut next = current.clone();
                    next.push(c);
                    let ghost before_child = adjusted_votes@;
                    let ghost next_path = next@;
                    BallotBox::distribute(child, next, adjusted_votes, n);
                    proof {
                        assert(adjusted_votes@.subrange(0, adjusted_start.len() as int) =~= adjusted_start) by {
                            assert forall|k: int| 0 <= k < adjusted_start.len() implies adjusted_votes@[k]
                                == adjusted_start[k] by {
                                assert(adjusted_votes@[k] == adjusted_votes@.subrange(0, before_child.len() as int)[k]);
                                assert(before_child[k] == before_child.subrange(0, adjusted_start.len() as int)[k]);
                            }
                        }
                        assert forall|s: Seq<usize>, flags: Seq<bool>| #[trigger] pending_seq(adjusted_votes@, s, flags)
                            == pending_seq(adjusted_start, s, flags) + kids_moved(*node, c + 1, cur, s, flags) by {
                            assert(pending_seq(before_child, s, flags) == pending_seq(adjusted_start, s, flags)
                                + kids_moved(*node, c as int, cur, s, flags));
                            assert(pending_seq(adjusted_votes@, s, flags) == pending_seq(before_child, s, flags)
                                + moved(*child, next_path, s, flags));
                        }
                        assert(next_path.drop_last() == cur);
                        assert(next_path.last() == c);
                        assert forall|to: usize, flags: Seq<bool>| #[trigger] pending_to(adjusted_votes@, to, flags)
                            == pending_to(adjusted_start, to, flags) + routed_prefix(*node, c + 1, cur, to, flags) by {
                            assert(pending_to(before_child, to, flags) == pending_to(adjusted_start, to, flags)
                                + routed_prefix(*node, c as int, cur, to, flags));
                            assert(pending_to(adjusted_votes@, to, flags) == pending_to(before_child, to, flags)
                                + routed(*child, first_in_race(next_path, flags), to, flags));
                        }
                        let tc = child.total_beneath as int;
                        let sc = slots_sum(slots.subrange(0, c as int)) as int;
                        assert((depth + 1) * tc == depth * tc + tc) by (nonlinear_arith);
                        assert(depth * (sc + tc) == depth * sc + depth * tc) by (nonlinear_arith);
                    }
                },
                None => {
                    proof {
                        assert forall|s: Seq<usize>, flags: Seq<bool>| #[trigger] pending_seq(adjusted_votes@, s, flags)
                            == pending_seq(adjusted_start, s, flags) + kids_moved(*node, c + 1, cur, s, flags) by {
                            assert(pending_seq(adjusted_votes@, s, flags) == pending_seq(adjusted_start, s, flags)
                                + kids_moved(*node, c as int, cur, s, flags));
                        }
                        assert forall|to: usize, flags: Seq<bool>| #[trigger] pending_to(adjusted_votes@, to, flags)
                            == pending_to(adjusted_start, to, flags) + routed_prefix(*node, c + 1, cur, to, flags) by {
                            assert(pending_to(adjusted_votes@, to, flags) == pending_to(adjusted_start, to, flags)
                                + routed_prefix(*node, c as int, cur, to, flags));
                        }
                    }
                },
            }
            c += 1;
        }
        proof {
            assert(slots.subrange(0, slots.len() as int) == slots);
        }
        proof {
            lemma_node_mass(*node);
            lemma_kids_mass(*node, slots.len() as int);
            let e = node.endings as int;
            let s = slots_sum(slots) as int;
            assert(depth * (e + s) == depth * e + depth * s) by (nonlinear_arith);
        }
        proof {
            assert forall|to: usize, flags: Seq<bool>| #[trigger] routed_prefix(*node, slots.len() as int, cur, to, flags)
                + (if first_in_race(cur, flags) == Some(to) { node.endings as nat } else { 0 })
                == routed(*node, first_in_race(cur, flags), to, flags) by {
            }
        }
        if node.endings > 0 {
            let ghost before = adjusted_votes@;
            adjusted_votes.push((Ballot::new(current), node.endings));
            proof {
                assert(adjusted_votes@.drop_last() == before);
                assert forall|s: Seq<usize>, flags: Seq<bool>| #[trigger] pending_seq(adjusted_votes@, s, flags)
                    == pending_seq(adjusted_start, s, flags) + moved(*node, cur, s, flags) by {
                    assert(pending_seq(before, s, flags) == pending_seq(adjusted_start, s, flags)
                        + kids_moved(*node, slots.len() as int, cur, s, flags));
                }
                assert(adjusted_votes@.subrange(0, adjusted_start.len() as int) =~= adjusted_start) by {
                    assert forall|k: int| 0 <= k < adjusted_start.len() implies adjusted_votes@[k]
                        == adjusted_start[k] by {
                        assert(before[k] == before.subrange(0, adjusted_start.len() as int)[k]);
                    }
                }
                assert forall|to: usize, flags: Seq<bool>| #[trigger] pending_to(adjusted_votes@, to, flags)
                    == pending_to(adjusted_start, to, flags) + routed(*node, first_in_race(cur, flags), to, flags) by {
                    assert(pending_to(before, to, flags) == pending_to(adjusted_start, to, flags)
                        + routed_prefix(*node, slots.len() as int, cur, to, flags));
                    assert(routed_prefix(*node, slots.len() as int, cur, to, flags)
                        + (if first_in_race(cur, flags) == Some(to) { node.endings as nat } else { 0 })
                        == routed(*node, first_in_race(cur, flags), to, flags));
                }
                assert(node.endings as nat * depth == depth * node.endings as nat) by (nonlinear_arith);
            }
        } else {
            proof {
                assert(depth * node.endings as nat == 0) by (nonlinear_arith)
                    requires
                        node.endings == 0,
                ;
                assert forall|s: Seq<usize>, flags: Seq<bool>| #[trigger] pending_seq(adjusted_votes@, s, flags)
                    == pending_seq(adjusted_start, s, flags) + moved(*node, cur, s, flags) by {
                    assert(pending_seq(adjusted_votes@, s, flags) == pending_seq(adjusted_start, s, flags)
                        + kids_moved(*node, slots.len() as int, cur, s, flags));
                }
                assert forall|to: usize, flags: Seq<bool>| #[trigger] pending_to(adjusted_votes@, to, flags)
                    == pending_to(adjusted_start, to, flags) + routed(*node, first_in_race(cur, flags), to, flags) by {
                    assert(pending_to(adjusted_votes@, to, flags) == pending_to(adjusted_start, to, flags)
                        + routed_prefix(*node, slots.len() as int, cur, to, flags));
                    assert(routed_prefix(*node, slots.len() as int, cur, to, flags)
                        + (if first_in_race(cur, flags) == Some(to) { node.endings as nat } else { 0 })
                        == routed(*node, first_in_race(cur, flags), to, flags));
                }
            }
        }
    }

    /// Takes the ballots of the given candidates out of the box and puts each back
    /// under its next preference, without the candidates that are out of the race;
    /// with `runoff` the given candidates leave the race first.
    fn runoff_or_promote(&mut self, to_promote_or_eliminate: Vec<usize>, runoff: bool)
        requires
            old(self).wf(),
            forall|k: int|
                0 <= k < to_promote_or_eliminate@.len() ==> to_promote_or_eliminate@[k] < old(
                    self,
                ).names().len(),
        ensures
            final(self).wf(),
            final(self).names() == old(self).names(),
            final(self).live_total() <= old(self).live_total(),
            final(self).pushed() == old(self).pushed(),
            final(self).mass() <= old(self).mass(),
            forall|s: Seq<usize>|
                s.len() > 0 ==> #[trigger] final(self).votes(s) == (if to_promote_or_eliminate@.contains(s[0]) {
                    0
                } else {
                    old(self).votes(s)
                }) + old(self).moved_votes(to_promote_or_eliminate@, s, final(self).eliminated_flags()),
            final(self).live_total() + old(self).moved_votes(
                to_promote_or_eliminate@,
                Seq::empty(),
                final(self).eliminated_flags(),
            ) == old(self).live_total(),
            forall|c: usize|
                c < old(self).names().len() ==> #[trigger] final(self).first_totals()[c as int] == (if to_promote_or_eliminate@.contains(c) {
                    0
                } else {
                    old(self).first_totals()[c as int]
                }) + old(self).redistributed(to_promote_or_eliminate@, c, final(self).eliminated_flags()),
            forall|k: int|
                0 <= k < to_promote_or_eliminate@.len() ==> final(self).mass() + old(self).first_totals()[
                    to_promote_or_eliminate@[k] as int] <= old(self).mass(),
            forall|c: int|
                0 <= c < old(self).names().len() ==> final(self).eliminated_flags()[c] == (old(
                    self,
                ).eliminated_flags()[c] || (runoff && to_promote_or_eliminate@.contains(c as usize))),
            runoff ==> forall|c: usize| #[trigger]
                to_promote_or_eliminate@.contains(c) ==> final(self).first_totals()[c as int] == 0,
            forall|c: usize|
                c < old(self).names().len() && !to_promote_or_eliminate@.contains(c)
                    ==> #[trigger] final(self).first_totals()[c as int] >= old(self).first_totals()[c as int],
            forall|s: Seq<usize>|
                s.len() > 0 && !to_promote_or_eliminate@.contains(s[0]) ==> #[trigger] final(self).votes(s)
                    >= old(self).votes(s),
    {
        let ghost pre = *self;
        let ghost sel = to_promote_or_eliminate@;
        let count = self.candidates.len();
        let ghost n = count as nat;
        let mut adjusted_votes: Vec<(Ballot, u32)> = Vec::new();
        let ghost mut removed: nat = 0;
        let mut i: usize = 0;
        while i < to_promote_or_eliminate.len()
            invariant
                self.wf(),
                sel == to_promote_or_eliminate@,
                n == self.candidates@.len(),
                n == count,
                pre.nodes@.len() == n,
                self.pushed@ == pre.pushed@,
                pre.total_votes <= pre.pushed@,
                self.candidates@ == pre.candidates@,
                forall|k: int| 0 <= k < sel.len() ==> sel[k] < n,
                i <= sel.len(),
                pending_in_range(adjusted_votes@, n),
                self.total_votes + pending_sum(adjusted_votes@) == pre.total_votes,
                self.mass() + pending_mass(adjusted_votes@) + removed == pre.mass(),
                forall|k: int| 0 <= k < i ==> pre.first_totals()[sel[k] as int] <= removed,
                forall|to: usize, flags: Seq<bool>|
                    #[trigger] pending_to(adjusted_votes@, to, flags) == sel_routed(pre.nodes@, sel.subrange(0, i as int), to, flags),
                forall|s: Seq<usize>, flags: Seq<bool>|
                    #[trigger] pending_seq(adjusted_votes@, s, flags) == sel_moved(pre.nodes@, sel.subrange(0, i as int), s, flags),
                forall|c: int|
                    0 <= c < n ==> self.eliminated@[c] == (pre.eliminated@[c] || (runoff
                        && sel.subrange(0, i as int).contains(c as usize))),
                forall|c: usize| #[trigger]
                    sel.subrange(0, i as int).contains(c) ==> self.nodes@[c as int] is None,
                forall|c: int|
                    0 <= c < n && !sel.subrange(0, i as int).contains(c as usize) ==> self.nodes@[c]
                        == pre.nodes@[c],
            decreases sel.len() - i,
        {
            let candidate = to_promote_or_eliminate[i];
            let ghost mid = *self;
            let ghost removed_before = removed;
            proof {
                assert(forall|c: int| 0 <= c < n ==> mid.eliminated@[c] == (pre.eliminated@[c] || (runoff
                        && sel.subrange(0, i as int).contains(c as usize))));
                assert(mid.mass() + pending_mass(adjusted_votes@) + removed == pre.mass());
                assert(forall|k: int| 0 <= k < i ==> pre.first_totals()[sel[k] as int] <= removed);
                assert(forall|c: usize| sel.subrange(0, i as int).contains(c) ==> mid.nodes@[c as int] is None);
                assert(forall|to: usize, flags: Seq<bool>|
                    #[trigger] pending_to(adjusted_votes@, to, flags) == sel_routed(pre.nodes@, sel.subrange(0, i as int), to, flags));
                assert(forall|s: Seq<usize>, flags: Seq<bool>|
                    #[trigger] pending_seq(adjusted_votes@, s, flags) == sel_moved(pre.nodes@, sel.subrange(0, i as int), s, flags));
            }
            let ghost adjusted_mid = adjusted_votes@;
            let mut slot: Option<BallotBoxNode> = None;
            self.nodes.set_and_swap(candidate, &mut slot);
            proof {
                lemma_sum_update(mid.nodes@, candidate as int, None);
                lemma_mass_update(mid.nodes@, candidate as int, None);
                let done = sel.subrange(0, i as int);
                if done.contains(candidate) {
                    let k = choose|k: int| 0 <= k < done.len() && done[k] == candidate;
                    assert(sel[k] == candidate);
                } else {
                    assert(mid.nodes@[candidate as int] == pre.nodes@[candidate as int]);
                }
            }
            let ghost taken = slot;
            match slot {
                Some(to_distribute) => {
                    self.total_votes = self.total_votes - to_distribute.total_beneath;
                    let ghost pending_before = pending_mass(adjusted_votes@);
                    let fresh: Vec<usize> = Vec::new();
                    proof {
                        assert(fresh@.len() == 0);
                        assert(self.mass() + node_mass(to_distribute) == mid.mass());
                    }
                    BallotBox::distribute(&to_distribute, fresh, &mut adjusted_votes, Ghost(n));
                    proof {
                        assert(fresh@ == Seq::<usize>::empty());
                        assert forall|to: usize, flags: Seq<bool>| #[trigger] pending_to(adjusted_votes@, to, flags)
                            == pending_to(adjusted_mid, to, flags) + routed(to_distribute, None, to, flags) by {
                            assert(first_in_race(Seq::<usize>::empty(), flags) is None);
                        }
                        assert(forall|s: Seq<usize>, flags: Seq<bool>| #[trigger] pending_seq(adjusted_votes@, s, flags)
                            == pending_seq(adjusted_mid, s, flags) + moved(to_distribute, Seq::empty(), s, flags));
                        assert(pending_mass(adjusted_votes@) == pending_before + node_mass(to_distribute)
                            - to_distribute.total_beneath);
                        removed = removed + to_distribute.total_beneath as nat;
                    }
                },
                None => {},
            }
            if runoff {
                self.eliminated.set(candidate, true);
            }
            proof {
                let done = sel.subrange(0, i as int);
                let next = sel.subrange(0, i + 1);
                assert(taken == mid.nodes@[candidate as int]);
                assert(next.drop_last() == done);
                assert(next.last() == candidate);
                if done.contains(candidate) {
                    assert(taken is None);
                } else {
                    assert(taken == pre.nodes@[candidate as int]);
                }
                assert forall|to: usize, flags: Seq<bool>| #[trigger] pending_to(adjusted_votes@, to, flags)
                    == sel_routed(pre.nodes@, next, to, flags) by {
                    assert(pending_to(adjusted_mid, to, flags) == sel_routed(pre.nodes@, done, to, flags));
                }
                assert forall|s: Seq<usize>, flags: Seq<bool>| #[trigger] pending_seq(adjusted_votes@, s, flags)
                    == sel_moved(pre.nodes@, next, s, flags) by {
                    assert(pending_seq(adjusted_mid, s, flags) == sel_moved(pre.nodes@, done, s, flags));
                }
                assert(removed == removed_before + slot_total(taken));
                assert(pre.first_totals()[candidate as int] <= removed) by {
                    if done.contains(candidate) {
                        let k = choose|k: int| 0 <= k < done.len() && done[k] == candidate;
                        assert(sel[k] == candidate);
                        assert(pre.first_totals()[sel[k] as int] <= removed_before);
                    } else {
                        assert(mid.nodes@[candidate as int] == pre.nodes@[candidate as int]);
                        assert(pre.first_totals()[candidate as int] == slot_total(pre.nodes@[candidate as int]));
                    }
                }
                assert forall|k: int| 0 <= k < i + 1 implies pre.first_totals()[sel[k] as int] <= removed by {
                    if k < i {
                        assert(pre.first_totals()[sel[k] as int] <= removed_before);
                    }
                }
                assert forall|c: usize| next.contains(c) <==> (done.contains(c) || c == candidate) by {
                    if next.contains(c) {
                        let k = choose|k: int| 0 <= k < next.len() && next[k] == c;
                        if k < i {
                            assert(done[k] == c);
                        }
                    }
                    if done.contains(c) {
                        let k = choose|k: int| 0 <= k < done.len() && done[k] == c;
                        assert(next[k] == c);
                    }
                    if c == candidate {
                        assert(next[i as int] == c);
                    }
                }
                let post = *self;
                assert forall|c: int| 0 <= c < n implies post.eliminated@[c] == (pre.eliminated@[c] || (runoff
                    && next.contains(c as usize))) by {
                    assert(next.contains(c as usize) <==> (done.contains(c as usize) || c as usize == candidate));
                    assert(mid.eliminated@[c] == (pre.eliminated@[c] || (runoff && done.contains(c as usize))));
                    if c != candidate {
                        assert(post.eliminated@[c] == mid.eliminated@[c]);
                    }
                }
                assert forall|c: int| 0 <= c < n && (#[trigger] post.nodes@[c]) is Some implies node_wf(
                    post.nodes@[c]->Some_0,
                    n,
                ) by {
                    assert(post.nodes@[c] == mid.nodes@[c]);
                }
            }
            i += 1;
        }
        proof {
            assert(sel.subrange(0, sel.len() as int) == sel);
        }
        let ghost cleared = *self;
        proof {
            assert(i == sel.len());
            assert(forall|c: int| 0 <= c < n ==> cleared.eliminated@[c] == (pre.eliminated@[c] || (runoff
                    && sel.subrange(0, i as int).contains(c as usize))));
            assert(forall|c: int|
                0 <= c < n && !sel.subrange(0, i as int).contains(c as usize) ==> cleared.nodes@[c]
                    == pre.nodes@[c]);
            assert forall|c: int| 0 <= c < n implies cleared.eliminated@[c] == (pre.eliminated@[c] || (runoff
                && sel.contains(c as usize))) by {
                assert(sel.subrange(0, sel.len() as int) == sel);
            }
            assert forall|c: usize| c < n && !sel.contains(c) implies cleared.nodes@[c as int]
                == pre.nodes@[c as int] by {
                assert(sel.subrange(0, sel.len() as int) == sel);
            }
            assert forall|c: usize| sel.contains(c) implies cleared.nodes@[c as int] is None by {
                assert(sel.subrange(0, sel.len() as int).contains(c));
            }
            assert(forall|to: usize, flags: Seq<bool>|
                #[trigger] pending_to(adjusted_votes@, to, flags) == sel_routed(pre.nodes@, sel.subrange(0, i as int), to, flags));
            assert(forall|s: Seq<usize>, flags: Seq<bool>|
                #[trigger] pending_seq(adjusted_votes@, s, flags) == sel_moved(pre.nodes@, sel.subrange(0, i as int), s, flags));
            assert(cleared.total_votes + pending_sum(adjusted_votes@) == pre.total_votes);
        }
        let eliminated_candidates = self.eliminated();
        while adjusted_votes.len() > 0
            invariant
                self.wf(),
                n == self.candidates@.len(),
                n == count,
                pre.nodes@.len() == n,
                self.pushed@ == pre.pushed@,
                pre.total_votes <= pre.pushed@,
                self.candidates@ == pre.candidates@,
                self.eliminated@ == cleared.eliminated@,
                forall|c: usize|
                    eliminated_candidates@.contains(c) <==> (c < n && self.eliminated@[c as int]),
                pending_in_range(adjusted_votes@, n),
                self.total_votes + pending_sum(adjusted_votes@) <= pre.total_votes,
                self.mass() + pending_mass(adjusted_votes@) + removed <= pre.mass(),
                forall|c: int| 0 <= c < n ==> self.first_totals()[c] >= cleared.first_totals()[c],
                forall|c: int| 0 <= c < n && self.eliminated@[c] ==> self.first_totals()[c] == cleared.first_totals()[c],
                forall|s: Seq<usize>| #[trigger] self.votes(s) >= cleared.votes(s),
                forall|to: usize|
                    to < n ==> #[trigger] self.first_totals()[to as int] + pending_to(adjusted_votes@, to, cleared.eliminated@)
                        == cleared.first_totals()[to as int] + sel_routed(pre.nodes@, sel, to, cleared.eliminated@),
                forall|s: Seq<usize>|
                    s.len() > 0 ==> #[trigger] self.votes(s) + pending_seq(adjusted_votes@, s, cleared.eliminated@)
                        == cleared.votes(s) + sel_moved(pre.nodes@, sel, s, cleared.eliminated@),
                self.total_votes + pending_sum(adjusted_votes@) + sel_moved(pre.nodes@, sel, Seq::empty(), cleared.eliminated@)
                    == pre.total_votes + pending_seq(adjusted_votes@, Seq::empty(), cleared.eliminated@),
            decreases adjusted_votes@.len(),
        {
            let ghost before = adjusted_votes@;
            match adjusted_votes.pop() {
                Some((vote, qty)) => {
                    proof {
                        assert(adjusted_votes@ == before.drop_last());
                        assert(forall|j: int| 0 <= j < vote@.len() ==> vote@[j] < n) by {
                            assert forall|j: int| 0 <= j < vote@.len() implies vote@[j] < n by {
                                assert(before[before.len() - 1].0@[j] < n);
                            }
                        }
                    }
                    let ghost full = vote@;
                    let ghost q = qty;
                    let ghost flags = cleared.eliminated@;
                    proof {
                        assert forall|to: usize| to < n implies pending_to(before, to, flags) == pending_to(adjusted_votes@, to, flags)
                            + (if first_in_race(full, flags) == Some(to) { q as nat } else { 0 }) by {
                            assert(before.last().0@ == full);
                        }
                        lemma_without_first(full, eliminated_candidates@);
                        assert forall|k: int| 0 <= k < full.len() implies kept_by(eliminated_candidates@)(full[k])
                            == racing(flags)(full[k]) by {
                            assert(full[k] < n);
                        }
                        lemma_first_kept_agree(full, kept_by(eliminated_candidates@), racing(flags));
                        lemma_filter_agree(full, kept_by(eliminated_candidates@), racing(flags));
                        assert(without(full, eliminated_candidates@) == full.filter(racing(flags)));
                        assert forall|s: Seq<usize>| #[trigger] pending_seq(before, s, flags) == pending_seq(adjusted_votes@, s, flags)
                            + (if full.filter(racing(flags)) == s { q as nat } else { 0 }) by {
                            assert(before.last().0@ == full);
                        }
                        assert(pending_sum(before) == pending_sum(adjusted_votes@) + q);
                    }
                    let ghost popped = adjusted_votes@;
                    match Ballot::remove_candidates(vote, eliminated_candidates.as_slice()) {
                        Some(vote) => {
                            let ghost mid = *self;
                            proof {
                                lemma_without_members(full, eliminated_candidates@);
                                assert forall|j: int| 0 <= j < vote@.len() implies vote@[j] < n by {
                                    assert(full.contains(without(full, eliminated_candidates@)[j]));
                                }
                                assert(!eliminated_candidates@.contains(vote@[0]));
                            }
                            proof {
                                full.lemma_filter_len(kept_by(eliminated_candidates@));
                                let a = vote@.len() as int;
                                let b = full.len() as int;
                                assert(q * a <= q * b) by (nonlinear_arith)
                                    requires
                                        a <= b,
                                        q >= 0,
                                ;
                            }
                            self.insert(vote, qty);
                            proof {
                                assert(self.eliminated@ =~= mid.eliminated@);
                                assert forall|s: Seq<usize>| s.len() > 0 implies #[trigger] self.votes(s)
                                    + pending_seq(popped, s, flags) == cleared.votes(s) + sel_moved(pre.nodes@, sel, s, flags) by {
                                    assert(mid.votes(s) + pending_seq(before, s, flags) == cleared.votes(s) + sel_moved(
                                        pre.nodes@,
                                        sel,
                                        s,
                                        flags,
                                    ));
                                }
                                assert(pending_seq(before, Seq::empty(), flags) == pending_seq(popped, Seq::empty(), flags));
                                assert forall|to: usize| to < n implies #[trigger] self.first_totals()[to as int]
                                    + pending_to(popped, to, flags) == cleared.first_totals()[to as int]
                                    + sel_routed(pre.nodes@, sel, to, flags) by {
                                    assert(mid.first_totals()[to as int] + pending_to(before, to, flags)
                                        == cleared.first_totals()[to as int] + sel_routed(pre.nodes@, sel, to, flags));
                                }
                            }
                        },
                        None => {
                            proof {
                                assert(full.filter(racing(flags)).len() == 0);
                                assert(full.filter(racing(flags)) == Seq::<usize>::empty());
                                assert forall|s: Seq<usize>| s.len() > 0 implies #[trigger] self.votes(s)
                                    + pending_seq(popped, s, flags) == cleared.votes(s) + sel_moved(pre.nodes@, sel, s, flags) by {
                                    assert(self.votes(s) + pending_seq(before, s, flags) == cleared.votes(s) + sel_moved(
                                        pre.nodes@,
                                        sel,
                                        s,
                                        flags,
                                    ));
                                }
                                assert forall|to: usize| to < n implies #[trigger] self.first_totals()[to as int]
                                    + pending_to(popped, to, flags) == cleared.first_totals()[to as int]
                                    + sel_routed(pre.nodes@, sel, to, flags) by {
                                    assert(self.first_totals()[to as int] + pending_to(before, to, flags)
                                        == cleared.first_totals()[to as int] + sel_routed(pre.nodes@, sel, to, flags));
                                }
                            }
                        },
                    }
                },
                None => {},
            }
        }
        proof {
            let post = *self;
            let flags = cleared.eliminated@;
            assert(pending_seq(adjusted_votes@, Seq::empty(), flags) == 0);
            assert forall|s: Seq<usize>| s.len() > 0 implies #[trigger] post.votes(s) == (if sel.contains(s[0]) {
                0
            } else {
                pre.votes(s)
            }) + pre.moved_votes(sel, s, post.eliminated_flags()) by {
                assert(pending_seq(adjusted_votes@, s, flags) == 0);
                assert(post.votes(s) + pending_seq(adjusted_votes@, s, flags) == cleared.votes(s) + sel_moved(pre.nodes@, sel, s, flags));
                if s[0] < n {
                    if sel.contains(s[0]) {
                        assert(cleared.nodes@[s[0] as int] is None);
                    } else {
                        assert(cleared.nodes@[s[0] as int] == pre.nodes@[s[0] as int]);
                    }
                } else {
                    if sel.contains(s[0]) {
                        let k = choose|k: int| 0 <= k < sel.len() && sel[k] == s[0];
                    }
                }
            }
            assert forall|c: usize| c < n implies #[trigger] post.first_totals()[c as int] == (if sel.contains(c) {
                0
            } else {
                pre.first_totals()[c as int]
            }) + pre.redistributed(sel, c, post.eliminated_flags()) by {
                assert(pending_to(adjusted_votes@, c, cleared.eliminated@) == 0);
                assert(post.first_totals()[c as int] + pending_to(adjusted_votes@, c, cleared.eliminated@)
                    == cleared.first_totals()[c as int] + sel_routed(pre.nodes@, sel, c, cleared.eliminated@));
                if sel.contains(c) {
                    assert(cleared.nodes@[c as int] is None);
                } else {
                    assert(cleared.nodes@[c as int] == pre.nodes@[c as int]);
                }
            }
            assert forall|k: int| 0 <= k < sel.len() implies post.mass() + pre.first_totals()[sel[k] as int]
                <= pre.mass() by {
                assert(pre.first_totals()[sel[k] as int] <= removed);
            }
            assert forall|c: usize| c < n && !sel.contains(c) implies #[trigger] post.first_totals()[c as int]
                >= pre.first_totals()[c as int] by {
                assert(cleared.nodes@[c as int] == pre.nodes@[c as int]);
                assert(post.first_totals()[c as int] >= cleared.first_totals()[c as int]);
                assert(cleared.first_totals()[c as int] == pre.first_totals()[c as int]);
            }
            if runoff {
                assert forall|c: usize| #[trigger] sel.contains(c) implies post.first_totals()[c as int] == 0 by {
                    let k = choose|k: int| 0 <= k < sel.len() && sel[k] == c;
                    assert(c < n);
                    assert(cleared.nodes@[c as int] is None);
                    assert(cleared.eliminated@[c as int]);
                    assert(post.eliminated@[c as int]);
                    assert(post.first_totals()[c as int] == cleared.first_totals()[c as int]);
                }
            }
            assert forall|s: Seq<usize>| s.len() > 0 && !sel.contains(s[0]) implies #[trigger] post.votes(s)
                >= pre.votes(s) by {
                if s[0] < n {
                    assert(cleared.nodes@[s[0] as int] == pre.nodes@[s[0] as int]);
                }
                assert(post.votes(s) >= cleared.votes(s));
            }
        }
    }

    /// Resolves a tie between the given candidates: their ballots move on to their
    /// next preferences, and nobody leaves the race.
    pub fn promote(&mut self, to_promote: Vec<usize>)
        requires
            old(self).wf(),
            forall|k: int| 0 <= k < to_promote@.len() ==> to_promote@[k] < old(self).names().len(),
        ensures
            final(self).wf(),
            final(self).names() == old(self).names(),
            final(self).live_total() <= old(self).live_total(),
            final(self).pushed() == old(self).pushed(),
            final(self).mass() <= old(self).mass(),
            forall|s: Seq<usize>|
                s.len() > 0 ==> #[trigger] final(self).votes(s) == (if to_promote@.contains(s[0]) {
                    0
                } else {
                    old(self).votes(s)
                }) + old(self).moved_votes(to_promote@, s, old(self).eliminated_flags()),
            final(self).live_total() + old(self).moved_votes(to_promote@, Seq::empty(), old(self).eliminated_flags()) == old(
                self,
            ).live_total(),
            forall|k: int|
                0 <= k < to_promote@.len() ==> final(self).mass() + old(self).first_totals()[to_promote@[k] as int]
                    <= old(self).mass(),
            final(self).eliminated_flags() == old(self).eliminated_flags(),
            forall|c: usize|
                c < old(self).names().len() ==> #[trigger] final(self).first_totals()[c as int] == (if to_promote@.contains(c) {
                    0
                } else {
                    old(self).first_totals()[c as int]
                }) + old(self).redistributed(to_promote@, c, old(self).eliminated_flags()),
            forall|c: usize|
                c < old(self).names().len() && !to_promote@.contains(c)
                    ==> #[trigger] final(self).first_totals()[c as int] >= old(self).first_totals()[c as int],
            forall|s: Seq<usize>|
                s.len() > 0 && !to_promote@.contains(s[0]) ==> #[trigger] final(self).votes(s) >= old(
                    self,
                ).votes(s),
    {
        self.runoff_or_promote(to_promote, false);
        proof {
            assert(self.eliminated_flags() =~= old(self).eliminated_flags());
        }
    }

    /// Takes the given candidates out of the race and moves their ballots on to
    /// their next preferences among the candidates still in it.
    pub fn runoff(&mut self, to_eliminate: Vec<usize>)
        requires
            old(self).wf(),
            forall|k: int| 0 <= k < to_eliminate@.len() ==> to_eliminate@[k] < old(self).names().len(),
        ensures
            final(self).wf(),
            final(self).names() == old(self).names(),
            final(self).live_total() <= old(self).live_total(),
            final(self).pushed() == old(self).pushed(),
            final(self).mass() <= old(self).mass(),
            forall|s: Seq<usize>|
                s.len() > 0 ==> #[trigger] final(self).votes(s) == (if to_eliminate@.contains(s[0]) {
                    0
                } else {
                    old(self).votes(s)
                }) + old(self).moved_votes(to_eliminate@, s, final(self).eliminated_flags()),
            final(self).live_total() + old(self).moved_votes(to_eliminate@, Seq::empty(), final(self).eliminated_flags()) == old(
                self,
            ).live_total(),
            forall|k: int|
                0 <= k < to_eliminate@.len() ==> final(self).mass() + old(self).first_totals()[to_eliminate@[k] as int]
                    <= old(self).mass(),
            forall|c: int|
                0 <= c < old(self).names().len() ==> final(self).eliminated_flags()[c] == (old(
                    self,
                ).eliminated_flags()[c] || to_eliminate@.contains(c as usize)),
            forall|c: usize| #[trigger]
                to_eliminate@.contains(c) ==> final(self).first_totals()[c as int] == 0,
            forall|c: usize|
                c < old(self).names().len() ==> #[trigger] final(self).first_totals()[c as int] == (if to_eliminate@.contains(c) {
                    0
                } else {
                    old(self).first_totals()[c as int]
                }) + old(self).redistributed(to_eliminate@, c, final(self).eliminated_flags()),
            forall|c: usize|
                c < old(self).names().len() && !to_eliminate@.contains(c)
                    ==> #[trigger] final(self).first_totals()[c as int] >= old(self).first_totals()[c as int],
            forall|s: Seq<usize>|
                s.len() > 0 && !to_eliminate@.contains(s[0]) ==> #[trigger] final(self).votes(s) >= old(
                    self,
                ).votes(s),
    {
        self.runoff_or_promote(to_eliminate, true);
    }

    /// Per candidate, the number of votes that give it their first preference.
    pub fn totals(&self) -> (r: Vec<u32>)
        requires
            self.wf(),
        ensures
            r@.len() == self.first_totals().len(),
            forall|c: int| 0 <= c < r@.len() ==> r@[c] == self.first_totals()[c],
    {
        let mut totals: Vec<u32> = Vec::new();
        let mut i: usize = 0;
        while i < self.nodes.len()
            invariant
                i <= self.nodes@.len(),
                totals@.len() == i,
                forall|c: int| 0 <= c < i ==> totals@[c] == slot_total(self.nodes@[c]),
            decreases self.nodes@.len() - i,
        {
            let total = match &self.nodes[i] {
                Some(node) => node.total_beneath,
                None => 0,
            };
            totals.push(total);
            i += 1;
        }
        totals
    }

    /// Classifies the current round against the winning threshold.
    pub fn status(&self, threshold: Threshold) -> (r: CountStatus)
        requires
            self.wf(),
            threshold_valid(threshold),
        ensures
            classifies(
                self.first_totals(),
                self.live_total(),
                self.eliminated_flags(),
                threshold,
                r,
            ),
            r matches CountStatus::Promotion(v) ==> forall|k: int|
                0 <= k < v@.len() ==> v@[k] < self.names().len() && !self.eliminated_flags()[v@[k] as int],
            r matches CountStatus::Runoff(v) ==> forall|k: int|
                0 <= k < v@.len() ==> v@[k] < self.names().len() && !self.eliminated_flags()[v@[k] as int],
    {
        let totals = self.totals();
        let ghost t = self.first_totals();
        let mut max: u32 = 0;
        let mut min: u32 = 0;
        let mut i: usize = 0;
        while i < totals.len()
            invariant
                totals@.len() == t.len(),
                forall|c: int| 0 <= c < t.len() ==> totals@[c] == t[c],
                i <= t.len(),
                max == seq_max(t.subrange(0, i as int)),
                min == min_nonzero(t.subrange(0, i as int)),
            decreases t.len() - i,
        {
            proof {
                let next = t.subrange(0, i + 1);
                assert(next.drop_last() == t.subrange(0, i as int));
                assert(next.last() == t[i as int]);
            }
            let x = totals[i];
            if x > max {
                max = x;
            }
            if x != 0 && (min == 0 || x < min) {
                min = x;
            }
            i += 1;
        }
        proof {
            assert(t.subrange(0, t.len() as int) == t);
        }
        let winners = holders_of(&totals, max, Ghost(t));
        let losers = holders_of(&totals, min, Ghost(t));
        proof {
            let d = threshold.denominator;
            let k = threshold.numerator;
            let v = self.total_votes;
            assert((max as int) * (d as int) <= 0xffff_ffff * 0xffff_ffff_ffff_ffff) by (nonlinear_arith)
                requires
                    max <= 0xffff_ffff,
                    d <= 0xffff_ffff_ffff_ffff,
            ;
            assert((k as int) * (v as int) <= 0xffff_ffff_ffff_ffff * 0xffff_ffff) by (nonlinear_arith)
                requires
                    k <= 0xffff_ffff_ffff_ffff,
                    v <= 0xffff_ffff,
            ;
        }
        let reached = {
            let lhs = (max as u128) * (threshold.denominator as u128);
            let rhs = (threshold.numerator as u128) * (self.total_votes as u128);
            lhs >= rhs
        };
        let all_lead = self.race_all_at(&totals, max);
        proof {
            self.lemma_shape();
            lemma_seq_max(t);
            lemma_holders(t, max as nat);
            lemma_min_nonzero(t);
            lemma_holders(t, min as nat);
        }
        if max == 0 {
            CountStatus::Tie
        } else if winners.len() == 1 && reached {
            CountStatus::Winner(winners[0])
        } else if all_lead {
            CountStatus::Promotion(winners)
        } else {
            CountStatus::Runoff(losers)
        }
    }

    /// Whether every candidate still in the race holds `max` first preferences.
    fn race_all_at(&self, totals: &Vec<u32>, max: u32) -> (r: bool)
        requires
            self.wf(),
            totals@.len() == self.first_totals().len(),
            forall|c: int| 0 <= c < totals@.len() ==> totals@[c] == self.first_totals()[c],
        ensures
            r == all_in_race_lead(self.first_totals(), self.eliminated_flags(), max as nat),
    {
        proof {
            self.lemma_shape();
        }
        let mut i: usize = 0;
        while i < totals.len()
            invariant
                self.wf(),
                totals@.len() == self.first_totals().len(),
                totals@.len() == self.eliminated@.len(),
                forall|c: int| 0 <= c < totals@.len() ==> totals@[c] == self.first_totals()[c],
                i <= totals@.len(),
                forall|c: int| 0 <= c < i && !self.eliminated@[c] ==> self.first_totals()[c] == max,
            decreases totals@.len() - i,
        {
            if !self.eliminated[i] && totals[i] != max {
                return false;
            }
            i += 1;
        }
        true
    }

    /// Counts round after round, redistributing as each round directs, until one
    /// ends the count: the winner, or `None` when it ends in a tie. Each
    /// redistribution lowers the preference mass by at least one, so there are at
    /// most as many of them as the pushed ballots hold preferences in all.
    pub fn count(&mut self, threshold: Threshold) -> (r: Option<usize>)
        requires
            old(self).wf(),
            threshold_valid(threshold),
        ensures
            final(self).wf(),
            final(self).names() == old(self).names(),
            final(self).live_total() <= old(self).live_total(),
            final(self).pushed() == old(self).pushed(),
            r matches Some(w) ==> classifies(
                final(self).first_totals(),
                final(self).live_total(),
                final(self).eliminated_flags(),
                threshold,
                CountStatus::Winner(w),
            ),
            r is None ==> classifies(
                final(self).first_totals(),
                final(self).live_total(),
                final(self).eliminated_flags(),
                threshold,
                CountStatus::Tie,
            ),
            classifies(
                old(self).first_totals(),
                old(self).live_total(),
                old(self).eliminated_flags(),
                threshold,
                CountStatus::Tie,
            ) ==> r is None && *final(self) == *old(self),
            forall|w: usize|
                #[trigger] classifies(
                    old(self).first_totals(),
                    old(self).live_total(),
                    old(self).eliminated_flags(),
                    threshold,
                    CountStatus::Winner(w),
                ) ==> r == Some(w) && *final(self) == *old(self),
    {
        let ghost mut started = false;
        loop
            invariant
                !started ==> *self == *old(self),
                started ==> !classifies(
                    old(self).first_totals(),
                    old(self).live_total(),
                    old(self).eliminated_flags(),
                    threshold,
                    CountStatus::Tie,
                ),
                started ==> forall|w: usize|
                    !#[trigger] classifies(
                        old(self).first_totals(),
                        old(self).live_total(),
                        old(self).eliminated_flags(),
                        threshold,
                        CountStatus::Winner(w),
                    ),
                self.wf(),
                self.names() == old(self).names(),
                self.live_total() <= old(self).live_total(),
                self.pushed() == old(self).pushed(),
                threshold_valid(threshold),
            decreases self.mass(),
        {
            let status = self.status(threshold);
            let ghost st = status;
            let ghost t = self.first_totals();
            match status {
                CountStatus::Winner(w) => {
                    proof {
                        if !started {
                            assert forall|x: usize| #[trigger] classifies(
                                self.first_totals(),
                                self.live_total(),
                                self.eliminated_flags(),
                                threshold,
                                CountStatus::Winner(x),
                            ) implies x == w by {
                                lemma_status_deterministic(
                                    self.first_totals(),
                                    self.live_total(),
                                    self.eliminated_flags(),
                                    threshold,
                                    CountStatus::Winner(x),
                                    st,
                                );
                            }
                        }
                    }
                    return Some(w);
                },
                CountStatus::Tie => {
                    return None;
                },
                CountStatus::Runoff(losers) => {
                    proof {
                        assert(t.len() == self.names().len());
                        lemma_round_progress(t, self.live_total(), self.eliminated_flags(), threshold, st);
                        assert(forall|k: int| 0 <= k < losers@.len() ==> losers@[k] < t.len());
                    }
                    proof {
                        if !started {
                            let tt = self.first_totals();
                            let lt = self.live_total();
                            let fl = self.eliminated_flags();
                            assert forall|w: usize| !#[trigger] classifies(tt, lt, fl, threshold, CountStatus::Winner(w)) by {
                                if classifies(tt, lt, fl, threshold, CountStatus::Winner(w)) {
                                    lemma_status_deterministic(tt, lt, fl, threshold, CountStatus::Winner(w), st);
                                }
                            }
                            if classifies(tt, lt, fl, threshold, CountStatus::Tie) {
                                lemma_status_deterministic(tt, lt, fl, threshold, CountStatus::Tie, st);
                            }
                        }
                        started = true;
                    }
                    self.runoff(losers);
                },
                CountStatus::Promotion(leaders) => {
                    proof {
                        assert(t.len() == self.names().len());
                        lemma_round_progress(t, self.live_total(), self.eliminated_flags(), threshold, st);
                        assert(forall|k: int| 0 <= k < leaders@.len() ==> leaders@[k] < t.len());
                    }
                    proof {
                        if !started {
                            let tt = self.first_totals();
                            let lt = self.live_total();
                            let fl = self.eliminated_flags();
                            assert forall|w: usize| !#[trigger] classifies(tt, lt, fl, threshold, CountStatus::Winner(w)) by {
                                if classifies(tt, lt, fl, threshold, CountStatus::Winner(w)) {
                                    lemma_status_deterministic(tt, lt, fl, threshold, CountStatus::Winner(w), st);
                                }
                            }
                            if classifies(tt, lt, fl, threshold, CountStatus::Tie) {
                                lemma_status_deterministic(tt, lt, fl, threshold, CountStatus::Tie, st);
                            }
                        }
                        started = true;
                    }
                    self.promote(leaders);
                },
            }
        }
    }

    /// Fills a box from the table's records, in order: each record that reads as
    /// a ballot is pushed once, and each one that does not is handed back with its
    /// row number in the table, the header being row 1. A rejected record does not
    /// stop the others from being counted.
    pub fn from_records(candidates: Candidates, records: Vec<Vec<Option<usize>>>) -> (r: (
        BallotBox,
        Vec<(usize, Vec<Option<usize>>)>,
    ))
        requires
            records@.len() < u32::MAX,
            forall|j: int| 0 <= j < records@.len() ==> records@[j]@.len() <= candidates@.len(),
        ensures
            r.0.wf(),
            r.0.names() == candidates@,
            r.0.pushed() == r.0.live_total(),
            r.0.live_total() + r.1@.len() == records@.len(),
            forall|c: usize| c < candidates@.len() ==> #[trigger] r.0.first_totals()[c as int] == first_choices(records@, c),
            forall|c: usize|
                c < candidates@.len() ==> #[trigger] r.0.eliminated_flags()[c as int] == (first_choices(records@, c) == 0),
            forall|s: Seq<usize>| #[trigger] r.0.votes(s) == ballots_reading(records@, s),
            forall|k: int|
                0 <= k < r.1@.len() ==> 2 <= r.1@[k].0 < records@.len() + 2 && r.1@[k].1@ == records@[r.1@[k].0
                    - 2]@ && rejected(r.1@[k].1@),
            forall|k: int, l: int| 0 <= k < l < r.1@.len() ==> r.1@[k].0 < r.1@[l].0,
            forall|j: int|
                0 <= j < records@.len() && rejected(#[trigger] records@[j]@) ==> exists|k: int|
                    0 <= k < r.1@.len() && r.1@[k].0 == j + 2,
    {
        let ghost names = candidates@;
        let mut ballot_box = BallotBox::new(candidates);
        let mut invalid: Vec<(usize, Vec<Option<usize>>)> = Vec::new();
        let mut j: usize = 0;
        while j < records.len()
            invariant
                ballot_box.wf(),
                ballot_box.names() == names,
                j <= records@.len(),
                records@.len() < u32::MAX,
                forall|i: int| 0 <= i < records@.len() ==> records@[i]@.len() <= names.len(),
                ballot_box.pushed() == ballot_box.live_total(),
                ballot_box.live_total() + invalid@.len() == j,
                forall|c: usize|
                    c < names.len() ==> #[trigger] ballot_box.first_totals()[c as int] == first_choices(
                        records@.subrange(0, j as int),
                        c,
                    ),
                forall|c: usize|
                    c < names.len() ==> #[trigger] ballot_box.eliminated_flags()[c as int] == (first_choices(
                        records@.subrange(0, j as int),
                        c,
                    ) == 0),
                forall|s: Seq<usize>| #[trigger] ballot_box.votes(s) == ballots_reading(records@.subrange(0, j as int), s),
                forall|k: int|
                    0 <= k < invalid@.len() ==> 2 <= invalid@[k].0 < j + 2 && invalid@[k].1@ == records@[invalid@[k].0
                        - 2]@ && rejected(invalid@[k].1@),
                forall|k: int, l: int| 0 <= k < l < invalid@.len() ==> invalid@[k].0 < invalid@[l].0,
                forall|i: int|
                    0 <= i < j && rejected(#[trigger] records@[i]@) ==> exists|k: int|
                        0 <= k < invalid@.len() && invalid@[k].0 == i + 2,
            decreases records@.len() - j,
        {
            let raw = records[j].clone();
            proof {
                assert(raw@ == records@[j as int]@);
                let next = records@.subrange(0, j + 1);
                assert(next.drop_last() == records@.subrange(0, j as int));
                assert(next.last() == records@[j as int]);
            }
            match Ballot::from_raw_ballot(raw) {
                Ok(ballot) => {
                    proof {
                        let raw_v = records@[j as int]@;
                        let c = choose|c: int| 0 <= c < raw_v.len() && raw_v[c].is_some();
                        assert(ballot@.contains(c as usize));
                        assert forall|k: int| 0 <= k < ballot@.len() implies ballot@[k] < names.len() by {
                            assert(ballot@[k] < raw_v.len());
                        }
                        assert forall|d: usize| ranked_first(raw_v, d) <==> d == ballot@[0] by {
                            let b0 = ballot@[0];
                            if d == b0 {
                                assert forall|e: int| 0 <= e < raw_v.len() && raw_v[e].is_some() implies raw_v[b0 as int].unwrap()
                                    <= raw_v[e].unwrap() by {
                                    assert(ballot@.contains(e as usize));
                                    let k = choose|k: int| 0 <= k < ballot@.len() && ballot@[k] == e as usize;
                                    if k > 0 {
                                        assert(raw_v[ballot@[0] as int].unwrap() < raw_v[ballot@[k] as int].unwrap());
                                    }
                                }
                            }
                            if ranked_first(raw_v, d) && d != b0 {
                                assert(raw_v[d as int].unwrap() <= raw_v[b0 as int].unwrap());
                                assert(ballot@.contains(d));
                                let k = choose|k: int| 0 <= k < ballot@.len() && ballot@[k] == d;
                                assert(k != 0);
                                assert(raw_v[ballot@[0] as int].unwrap() < raw_v[ballot@[k] as int].unwrap());
                            }
                        }
                        assert forall|s: Seq<usize>| is_rank_order(raw_v, s) <==> s == ballot@ by {
                            if is_rank_order(raw_v, s) {
                                lemma_rank_order_unique(raw_v, s, ballot@);
                            }
                        }
                    }
                    let ghost bb_before = ballot_box;
                    ballot_box.push(ballot, 1);
                    proof {
                        bb_before.lemma_shape();
                        ballot_box.lemma_shape();
                    }
                },
                Err(raw) => {
                    let ghost before = invalid@;
                    invalid.push((j + 1 + 1, raw));
                    proof {
                        assert(invalid@[before.len() as int].0 == j + 2);
                        assert forall|i: int| 0 <= i < j + 1 && rejected(#[trigger] records@[i]@) implies exists|k: int|
                            0 <= k < invalid@.len() && invalid@[k].0 == i + 2 by {
                            if i < j {
                                let k = choose|k: int| 0 <= k < before.len() && before[k].0 == i + 2;
                                assert(invalid@[k] == before[k]);
                            }
                        }
                    }
                },
            }
            j += 1;
        }
        proof {
            assert(records@.subrange(0, records@.len() as int) == records@);
        }
        (ballot_box, invalid)
    }
}

} // verus!
