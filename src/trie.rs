//! The preference trie: one node per distinct prefix of preferences, each
//! holding how many ballots pass through it and how many end at it.
use vstd::prelude::*;

use crate::ballot::{in_race, is_prefix, racing, Ballot};

verus! {

/// One node of the preference trie: the ballots whose preferences begin with the
/// path that leads to it. `children[c]` holds those that go on to candidate `c`.
#[derive(Debug)]
pub(crate) struct BallotBoxNode {
    pub(crate) total_beneath: u32,
    pub(crate) endings: u32,
    pub(crate) children: Vec<Option<BallotBoxNode>>,
}

/// The votes held by an optional node, 0 when absent.
pub(crate) open spec fn slot_total(slot: Option<BallotBoxNode>) -> nat {
    match slot {
        Some(node) => node.total_beneath as nat,
        None => 0,
    }
}

/// The votes held by all the slots of `slots`.
pub(crate) open spec fn slots_sum(slots: Seq<Option<BallotBoxNode>>) -> nat
    decreases slots.len(),
{
    if slots.len() == 0 {
        0
    } else {
        slots_sum(slots.drop_last()) + slot_total(slots.last())
    }
}

/// The preference mass below `node`: every ballot counted once for each
/// preference it expresses from `node` down (the node's own included).
pub(crate) open spec fn node_mass(node: BallotBoxNode) -> nat
    decreases node, node.children@.len() + 1,
{
    node.total_beneath as nat + kids_mass(node, node.children@.len() as int)
}

/// The preference mass below the first `k` children of `node`.
pub(crate) open spec fn kids_mass(node: BallotBoxNode, k: int) -> nat
    decreases node, k,
{
    if k <= 0 || k > node.children@.len() {
        0
    } else {
        kids_mass(node, k - 1) + match node.children@[k - 1] {
            Some(child) => node_mass(child),
            None => 0nat,
        }
    }
}

/// The preference mass held by an optional node, 0 when absent.
pub(crate) open spec fn slot_mass(slot: Option<BallotBoxNode>) -> nat {
    match slot {
        Some(node) => node_mass(node),
        None => 0,
    }
}

/// The preference mass held by all the slots of `slots`.
pub(crate) open spec fn slots_mass(slots: Seq<Option<BallotBoxNode>>) -> nat
    decreases slots.len(),
{
    if slots.len() == 0 {
        0
    } else {
        slots_mass(slots.drop_last()) + slot_mass(slots.last())
    }
}

pub(crate) proof fn lemma_kids_mass(node: BallotBoxNode, k: int)
    requires
        0 <= k <= node.children@.len(),
    ensures
        kids_mass(node, k) == slots_mass(node.children@.subrange(0, k)),
    decreases k,
{
    if k > 0 {
        lemma_kids_mass(node, k - 1);
        assert(node.children@.subrange(0, k).drop_last() == node.children@.subrange(0, k - 1));
    }
}

pub(crate) proof fn lemma_node_mass(node: BallotBoxNode)
    ensures
        node_mass(node) == node.total_beneath + slots_mass(node.children@),
{
    lemma_kids_mass(node, node.children@.len() as int);
    assert(node.children@.subrange(0, node.children@.len() as int) == node.children@);
}

pub(crate) proof fn lemma_mass_update(slots: Seq<Option<BallotBoxNode>>, k: int, v: Option<BallotBoxNode>)
    requires
        0 <= k < slots.len(),
    ensures
        slots_mass(slots.update(k, v)) + slot_mass(slots[k]) == slots_mass(slots) + slot_mass(v),
    decreases slots.len(),
{
    let u = slots.update(k, v);
    if k < slots.len() - 1 {
        assert(u.drop_last() == slots.drop_last().update(k, v));
        lemma_mass_update(slots.drop_last(), k, v);
    } else {
        assert(u.drop_last() == slots.drop_last());
    }
}

pub(crate) proof fn lemma_mass_empty(slots: Seq<Option<BallotBoxNode>>)
    requires
        forall|k: int| 0 <= k < slots.len() ==> slots[k].is_none(),
    ensures
        slots_mass(slots) == 0,
    decreases slots.len(),
{
    if slots.len() > 0 {
        lemma_mass_empty(slots.drop_last());
    }
}

/// The votes below `node` that a redistribution hands to candidate `c`, when
/// the path that leads to `node` already has `lead` as its first candidate in
/// the race: each ballot goes to the first candidate of its path that is in the
/// race, and a ballot with none is exhausted.
pub(crate) open spec fn routed(node: BallotBoxNode, lead: Option<usize>, c: usize, flags: Seq<bool>) -> nat
    decreases node, node.children@.len() + 1,
{
    match lead {
        Some(x) => if x == c {
            node.total_beneath as nat
        } else {
            0
        },
        None => kids_routed(node, node.children@.len() as int, c, flags),
    }
}

/// The votes below the first `k` children of `node` that a redistribution hands
/// to `c`, when no candidate on the path to `node` is in the race.
pub(crate) open spec fn kids_routed(node: BallotBoxNode, k: int, c: usize, flags: Seq<bool>) -> nat
    decreases node, k,
{
    if k <= 0 || k > node.children@.len() {
        0
    } else {
        kids_routed(node, k - 1, c, flags) + match node.children@[k - 1] {
            Some(child) => routed(
                child,
                if in_race(flags, (k - 1) as usize) {
                    Some((k - 1) as usize)
                } else {
                    None
                },
                c,
                flags,
            ),
            None => 0nat,
        }
    }
}

/// The ballots below `node` that read exactly `s` once the path `cur` that
/// leads to them (`cur` included) has the candidates out of the race by `flags`
/// taken out.
pub(crate) open spec fn moved(node: BallotBoxNode, cur: Seq<usize>, s: Seq<usize>, flags: Seq<bool>) -> nat
    decreases node, node.children@.len() + 1,
{
    (if cur.filter(racing(flags)) == s {
        node.endings as nat
    } else {
        0nat
    }) + kids_moved(node, node.children@.len() as int, cur, s, flags)
}

/// The part of `moved` held below the first `k` children of `node`.
pub(crate) open spec fn kids_moved(node: BallotBoxNode, k: int, cur: Seq<usize>, s: Seq<usize>, flags: Seq<bool>) -> nat
    decreases node, k,
{
    if k <= 0 || k > node.children@.len() {
        0
    } else {
        kids_moved(node, k - 1, cur, s, flags) + match node.children@[k - 1] {
            Some(child) => moved(child, cur.push((k - 1) as usize), s, flags),
            None => 0nat,
        }
    }
}

/// The node reached from `node` by following the candidates of `path`.
pub(crate) open spec fn node_at(node: BallotBoxNode, path: Seq<usize>) -> Option<BallotBoxNode>
    decreases path.len(),
{
    if path.len() == 0 {
        Some(node)
    } else if path[0] < node.children@.len() {
        match node.children@[path[0] as int] {
            Some(child) => node_at(child, path.drop_first()),
            None => None,
        }
    } else {
        None
    }
}

/// The ballots that end exactly at the end of `path` below `node`.
pub(crate) open spec fn total_at(node: BallotBoxNode, path: Seq<usize>) -> nat {
    match node_at(node, path) {
        Some(m) => m.total_beneath as nat,
        None => 0,
    }
}

/// The ballots that end exactly at the end of `path` below `node`.
pub(crate) open spec fn ends_at(node: BallotBoxNode, path: Seq<usize>) -> nat {
    match node_at(node, path) {
        Some(m) => m.endings as nat,
        None => 0,
    }
}

/// The counts of a single node agree with those of its children.
pub(crate) open spec fn locally_sound(node: BallotBoxNode, n: nat) -> bool {
    &&& node.children@.len() == n
    &&& node.total_beneath == node.endings + slots_sum(node.children@)
}

/// The node at the end of `path`, if there is one, is locally sound.
pub(crate) open spec fn sound_at(node: BallotBoxNode, path: Seq<usize>, n: nat) -> bool {
    match node_at(node, path) {
        Some(m) => locally_sound(m, n),
        None => true,
    }
}

/// Every node below `node` (itself included) is locally sound.
pub(crate) open spec fn node_wf(node: BallotBoxNode, n: nat) -> bool {
    forall|p: Seq<usize>| #[trigger] sound_at(node, p, n)
}

pub(crate) proof fn lemma_sum_bounds(slots: Seq<Option<BallotBoxNode>>, k: int)
    requires
        0 <= k < slots.len(),
    ensures
        slot_total(slots[k]) <= slots_sum(slots),
    decreases slots.len(),
{
    if k < slots.len() - 1 {
        lemma_sum_bounds(slots.drop_last(), k);
    }
}

pub(crate) proof fn lemma_sum_update(slots: Seq<Option<BallotBoxNode>>, k: int, v: Option<BallotBoxNode>)
    requires
        0 <= k < slots.len(),
    ensures
        slots_sum(slots.update(k, v)) + slot_total(slots[k]) == slots_sum(slots) + slot_total(v),
    decreases slots.len(),
{
    let u = slots.update(k, v);
    if k < slots.len() - 1 {
        assert(u.drop_last() == slots.drop_last().update(k, v));
        lemma_sum_update(slots.drop_last(), k, v);
    } else {
        assert(u.drop_last() == slots.drop_last());
    }
}

pub(crate) proof fn lemma_sum_empty(slots: Seq<Option<BallotBoxNode>>)
    requires
        forall|k: int| 0 <= k < slots.len() ==> slots[k].is_none(),
    ensures
        slots_sum(slots) == 0,
    decreases slots.len(),
{
    if slots.len() > 0 {
        lemma_sum_empty(slots.drop_last());
    }
}

/// A child of a sound subtree is a sound subtree.
pub(crate) proof fn lemma_child_wf(node: BallotBoxNode, n: nat, c: usize)
    requires
        node_wf(node, n),
        c < node.children@.len(),
        node.children@[c as int] is Some,
    ensures
        node_wf(node.children@[c as int]->Some_0, n),
        node.children@[c as int]->Some_0.total_beneath <= node.total_beneath,
{
    let child = node.children@[c as int]->Some_0;
    assert forall|p: Seq<usize>| #[trigger] sound_at(child, p, n) by {
        let q = seq![c].add(p);
        assert(q.drop_first() == p);
        assert(node_at(node, q) == node_at(child, p));
        assert(sound_at(node, q, n));
    }
    assert(node_at(node, Seq::empty()) == Some(node));
    assert(sound_at(node, Seq::empty(), n));
    lemma_sum_bounds(node.children@, c as int);
}

impl BallotBoxNode {
    /// Creates an empty node with one child slot per candidate.
    pub(crate) fn new(children: usize) -> (r: Self)
        ensures
            r.total_beneath == 0,
            r.endings == 0,
            r.children@.len() == children,
            forall|k: int| 0 <= k < children ==> r.children@[k].is_none(),
            node_wf(r, children as nat),
            forall|p: Seq<usize>| p.len() > 0 ==> node_at(r, p).is_none(),
            node_mass(r) == 0,
    {
        let mut slots: Vec<Option<BallotBoxNode>> = Vec::new();
        let mut i: usize = 0;
        while i < children
            invariant
                i <= children,
                slots@.len() == i,
                forall|k: int| 0 <= k < i ==> slots@[k].is_none(),
            decreases children - i,
        {
            slots.push(None);
            i += 1;
        }
        let r = BallotBoxNode { total_beneath: 0, endings: 0, children: slots };
        proof {
            lemma_sum_empty(r.children@);
            lemma_mass_empty(r.children@);
            lemma_node_mass(r);
            assert forall|p: Seq<usize>| #[trigger] sound_at(r, p, children as nat) by {
                if p.len() > 0 {
                    assert(node_at(r, p).is_none());
                }
            }
        }
        r
    }

    /// Adds `quantity` ballots that continue below this node with `ballot[i..]`.
    pub(crate) fn push(&mut self, ballot: &Ballot, i: usize, quantity: u32, n: usize)
        requires
            node_wf(*old(self), n as nat),
            old(self).total_beneath + quantity <= u32::MAX,
            i <= ballot@.len(),
            forall|k: int| 0 <= k < ballot@.len() ==> ballot@[k] < n,
        ensures
            node_wf(*final(self), n as nat),
            final(self).total_beneath == old(self).total_beneath + quantity,
            node_mass(*final(self)) == node_mass(*old(self)) + quantity * (ballot@.len() - i + 1),
            forall|p: Seq<usize>|
                #[trigger] ends_at(*final(self), p) == ends_at(*old(self), p) + if p == ballot@.subrange(
                    i as int,
                    ballot@.len() as int,
                ) {
                    quantity as nat
                } else {
                    0
                },
            forall|p: Seq<usize>|
                #[trigger] total_at(*final(self), p) == total_at(*old(self), p) + if is_prefix(
                    p,
                    ballot@.subrange(i as int, ballot@.len() as int),
                ) {
                    quantity as nat
                } else {
                    0
                },
        decreases ballot@.len() - i,
    {
        let ghost pre = *self;
        let ghost q = ballot@.subrange(i as int, ballot@.len() as int);
        proof {
            assert(node_at(pre, Seq::empty()) == Some(pre));
            assert(sound_at(pre, Seq::empty(), n as nat));
        }
        if i == ballot.len() {
            self.total_beneath = self.total_beneath + quantity;
            self.endings = self.endings + quantity;
            proof {
                let post = *self;
                lemma_node_mass(pre);
                lemma_node_mass(post);
                assert(post.children@ == pre.children@);
                assert(ballot@.len() - i + 1 == 1);
                assert(quantity * 1 == quantity);
                assert forall|p: Seq<usize>| #[trigger] sound_at(post, p, n as nat) by {
                    if p.len() > 0 {
                        assert(node_at(post, p) == node_at(pre, p));
                        assert(sound_at(pre, p, n as nat));
                    }
                }
                assert forall|p: Seq<usize>| #[trigger] ends_at(post, p) == ends_at(pre, p) + if p == q {
                    quantity as nat
                } else {
                    0
                } by {
                    if p.len() > 0 {
                        assert(node_at(post, p) == node_at(pre, p));
                        assert(p != q);
                    } else {
                        assert(p == q);
                    }
                }
                assert forall|p: Seq<usize>| #[trigger] total_at(post, p) == total_at(pre, p) + if is_prefix(p, q) {
                    quantity as nat
                } else {
                    0
                } by {
                    if p.len() > 0 {
                        assert(node_at(post, p) == node_at(pre, p));
                    } else {
                        assert(p =~= q.subrange(0, 0));
                    }
                }
            }
        } else {
            let c = ballot.at(i);
            let mut slot: Option<BallotBoxNode> = None;
            self.children.set_and_swap(c, &mut slot);
            let mut child = match slot {
                Some(existing) => existing,
                None => BallotBoxNode::new(n),
            };
            proof {
                lemma_sum_bounds(pre.children@, c as int);
                if slot is Some {
                    lemma_child_wf(pre, n as nat, c);
                }
            }
            let ghost child_pre = child;
            child.push(ballot, i + 1, quantity, n);
            let ghost child_post = child;
            let mut back = Some(child);
            self.children.set_and_swap(c, &mut back);
            self.total_beneath = self.total_beneath + quantity;
            proof {
                let post = *self;
                assert(post.children@ == pre.children@.update(c as int, Some(child_post)));
                lemma_sum_update(pre.children@, c as int, Some(child_post));
                lemma_mass_update(pre.children@, c as int, Some(child_post));
                lemma_node_mass(pre);
                lemma_node_mass(post);
                assert(slot_mass(pre.children@[c as int]) == node_mass(child_pre));
                let rest_len = ballot@.len() - i;
                assert(quantity * (rest_len + 1) == quantity * rest_len + quantity) by (nonlinear_arith);
                assert(node_mass(child_post) == node_mass(child_pre) + quantity * rest_len);
                assert(node_mass(post) == post.total_beneath + slots_mass(post.children@));
                assert(q[0] == c);
                assert(q.drop_first() == ballot@.subrange(i + 1, ballot@.len() as int));
                assert forall|p: Seq<usize>| #[trigger] sound_at(post, p, n as nat) by {
                    if p.len() > 0 {
                        if p[0] == c {
                            assert(node_at(post, p) == node_at(child_post, p.drop_first()));
                            assert(sound_at(child_post, p.drop_first(), n as nat));
                        } else {
                            assert(node_at(post, p) == node_at(pre, p));
                            assert(sound_at(pre, p, n as nat));
                        }
                    }
                }
                assert forall|p: Seq<usize>| #[trigger] ends_at(post, p) == ends_at(pre, p) + if p == q {
                    quantity as nat
                } else {
                    0
                } by {
                    if p.len() > 0 {
                        if p[0] == c {
                            let rest = p.drop_first();
                            assert(node_at(post, p) == node_at(child_post, rest));
                            assert(ends_at(post, p) == ends_at(child_post, rest));
                            if slot is Some {
                                assert(node_at(pre, p) == node_at(child_pre, rest));
                            } else {
                                if rest.len() > 0 {
                                    assert(node_at(child_pre, rest).is_none());
                                }
                                assert(ends_at(child_pre, rest) == 0);
                            }
                            assert(ends_at(pre, p) == ends_at(child_pre, rest));
                            if rest == q.drop_first() {
                                assert forall|k: int| 0 <= k < p.len() implies p[k] == q[k] by {
                                    if k > 0 {
                                        assert(p[k] == rest[k - 1]);
                                    }
                                }
                                assert(p =~= q);
                            } else {
                                assert(p != q);
                            }
                        } else {
                            assert(node_at(post, p) == node_at(pre, p));
                            assert(p != q);
                        }
                    } else {
                        assert(p != q);
                    }
                }
                assert forall|p: Seq<usize>| #[trigger] total_at(post, p) == total_at(pre, p) + if is_prefix(p, q) {
                    quantity as nat
                } else {
                    0
                } by {
                    if p.len() > 0 {
                        if p[0] == c {
                            let rest = p.drop_first();
                            let qr = q.drop_first();
                            assert(node_at(post, p) == node_at(child_post, rest));
                            if slot is Some {
                                assert(node_at(pre, p) == node_at(child_pre, rest));
                            } else {
                                if rest.len() > 0 {
                                    assert(node_at(child_pre, rest).is_none());
                                }
                            }
                            assert(total_at(pre, p) == total_at(child_pre, rest));
                            assert(total_at(child_post, rest) == total_at(child_pre, rest) + if is_prefix(rest, qr) {
                                quantity as nat
                            } else {
                                0
                            });
                            if is_prefix(rest, qr) {
                                assert(p =~= q.subrange(0, p.len() as int)) by {
                                    assert forall|k: int| 0 <= k < p.len() implies p[k] == q[k] by {
                                        if k > 0 {
                                            assert(p[k] == rest[k - 1]);
                                            assert(rest[k - 1] == qr.subrange(0, rest.len() as int)[k - 1]);
                                        }
                                    }
                                }
                            } else if is_prefix(p, q) {
                                assert(rest =~= qr.subrange(0, rest.len() as int)) by {
                                    assert forall|k: int| 0 <= k < rest.len() implies rest[k] == qr[k] by {
                                        assert(p[k + 1] == q.subrange(0, p.len() as int)[k + 1]);
                                    }
                                }
                            }
                        } else {
                            assert(node_at(post, p) == node_at(pre, p));
                            if is_prefix(p, q) {
                                assert(p[0] == q.subrange(0, p.len() as int)[0]);
                            }
                        }
                    } else {
                        assert(p =~= q.subrange(0, 0));
                        assert(node_at(post, p) == Some(post));
                        assert(node_at(pre, p) == Some(pre));
                    }
                }
            }
        }
    }
}

/// Following one more candidate from the end of `path` leads to that child.
pub(crate) proof fn lemma_node_at_push(node: BallotBoxNode, path: Seq<usize>, c: usize)
    ensures
        node_at(node, path.push(c)) == match node_at(node, path) {
            Some(m) => if c < m.children@.len() {
                match m.children@[c as int] {
                    Some(child) => Some(child),
                    None => None,
                }
            } else {
                None
            },
            None => None,
        },
    decreases path.len(),
{
    let q = path.push(c);
    if path.len() == 0 {
        assert(q.drop_first() == Seq::<usize>::empty());
        assert(node_at(node, path) == Some(node));
        if c < node.children@.len() {
            if let Some(child) = node.children@[c as int] {
                assert(node_at(child, q.drop_first()) == Some(child));
            }
        }
    } else {
        assert(q[0] == path[0]);
        assert(q.drop_first() == path.drop_first().push(c));
        if path[0] < node.children@.len() {
            if let Some(child) = node.children@[path[0] as int] {
                lemma_node_at_push(child, path.drop_first(), c);
            }
        }
    }
}

/// A redistribution never hands on more votes than a subtree holds.
pub(crate) proof fn lemma_routed_le(node: BallotBoxNode, lead: Option<usize>, c: usize, flags: Seq<bool>, n: nat)
    requires
        node_wf(node, n),
        n <= usize::MAX,
    ensures
        routed(node, lead, c, flags) <= node.total_beneath,
    decreases node, node.children@.len() + 1,
{
    assert(sound_at(node, Seq::empty(), n));
    assert(node_at(node, Seq::empty()) == Some(node));
    if lead is None {
        lemma_kids_routed_le(node, node.children@.len() as int, c, flags, n);
        assert(node.children@.subrange(0, node.children@.len() as int) == node.children@);
    }
}

pub(crate) proof fn lemma_kids_routed_le(node: BallotBoxNode, k: int, c: usize, flags: Seq<bool>, n: nat)
    requires
        node_wf(node, n),
        n <= usize::MAX,
        0 <= k <= node.children@.len(),
    ensures
        kids_routed(node, k, c, flags) <= slots_sum(node.children@.subrange(0, k)),
    decreases node, k,
{
    assert(sound_at(node, Seq::empty(), n));
    assert(node_at(node, Seq::empty()) == Some(node));
    if k > 0 {
        lemma_kids_routed_le(node, k - 1, c, flags, n);
        assert(node.children@.subrange(0, k).drop_last() == node.children@.subrange(0, k - 1));
        if let Some(child) = node.children@[k - 1] {
            lemma_child_wf(node, n, (k - 1) as usize);
            lemma_routed_le(
                child,
                if in_race(flags, (k - 1) as usize) {
                    Some((k - 1) as usize)
                } else {
                    None
                },
                c,
                flags,
                n,
            );
        }
    }
}

/// Every node below a sound subtree heads a sound subtree.
pub(crate) proof fn lemma_descendant_wf(node: BallotBoxNode, path: Seq<usize>, n: nat)
    requires
        node_wf(node, n),
        node_at(node, path) is Some,
    ensures
        node_wf(node_at(node, path)->Some_0, n),
{
    let m = node_at(node, path)->Some_0;
    assert forall|p: Seq<usize>| #[trigger] sound_at(m, p, n) by {
        lemma_node_at_concat(node, path, p);
        assert(sound_at(node, path + p, n));
    }
}

pub(crate) proof fn lemma_node_at_concat(node: BallotBoxNode, a: Seq<usize>, b: Seq<usize>)
    requires
        node_at(node, a) is Some,
    ensures
        node_at(node, a + b) == node_at(node_at(node, a)->Some_0, b),
    decreases a.len(),
{
    if a.len() == 0 {
        assert(a + b =~= b);
    } else {
        assert((a + b).drop_first() =~= a.drop_first() + b);
        assert((a + b)[0] == a[0]);
        let child = node.children@[a[0] as int]->Some_0;
        lemma_node_at_concat(child, a.drop_first(), b);
    }
}

/// A redistribution never moves more ballots than a subtree holds.
pub(crate) proof fn lemma_moved_le(node: BallotBoxNode, cur: Seq<usize>, s: Seq<usize>, flags: Seq<bool>, n: nat)
    requires
        node_wf(node, n),
        n <= usize::MAX,
    ensures
        moved(node, cur, s, flags) <= node.total_beneath,
    decreases node, node.children@.len() + 1,
{
    assert(sound_at(node, Seq::empty(), n));
    assert(node_at(node, Seq::empty()) == Some(node));
    lemma_kids_moved_le(node, node.children@.len() as int, cur, s, flags, n);
    assert(node.children@.subrange(0, node.children@.len() as int) == node.children@);
}

pub(crate) proof fn lemma_kids_moved_le(
    node: BallotBoxNode,
    k: int,
    cur: Seq<usize>,
    s: Seq<usize>,
    flags: Seq<bool>,
    n: nat,
)
    requires
        node_wf(node, n),
        n <= usize::MAX,
        0 <= k <= node.children@.len(),
    ensures
        kids_moved(node, k, cur, s, flags) <= slots_sum(node.children@.subrange(0, k)),
    decreases node, k,
{
    assert(sound_at(node, Seq::empty(), n));
    assert(node_at(node, Seq::empty()) == Some(node));
    if k > 0 {
        lemma_kids_moved_le(node, k - 1, cur, s, flags, n);
        assert(node.children@.subrange(0, k).drop_last() == node.children@.subrange(0, k - 1));
        if let Some(child) = node.children@[k - 1] {
            lemma_child_wf(node, n, (k - 1) as usize);
            lemma_moved_le(child, cur.push((k - 1) as usize), s, flags, n);
        }
    }
}

} // verus!
