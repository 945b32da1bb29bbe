//! The order of the ring, as mathematics: the entries of a ring listed
//! clockwise, the walk that starts behind a position, and the group that
//! the walk gathers.

use crate::digest::node_position;
use vstd::prelude::*;

verus! {

/// One more than the largest position.
pub open spec fn ring_size() -> nat {
    0x1_0000_0000_0000_0000
}

/// Whether the positions of `s` increase.
pub open spec fn increasing(s: Seq<(u64, usize)>) -> bool {
    forall|i: int, j: int| 0 <= i < j < s.len() ==> s[i].0 < s[j].0
}

/// Whether `s` lists the entries of `m`: each entry once, in increasing
/// order of position.
pub open spec fn lists(s: Seq<(u64, usize)>, m: Map<u64, usize>) -> bool {
    &&& increasing(s)
    &&& forall|i: int| 0 <= i < s.len() ==> #[trigger] m.contains_pair(s[i].0, s[i].1)
    &&& forall|k: u64| #[trigger]
        m.contains_key(k) ==> exists|i: int| 0 <= i < s.len() && #[trigger] s[i].0 == k
}

/// The entries of `m` at positions below `bound`, in increasing order of
/// position.
pub open spec fn below(m: Map<u64, usize>, bound: nat) -> Seq<(u64, usize)>
    decreases bound,
{
    if bound == 0 {
        Seq::empty()
    } else {
        let at = (bound - 1) as u64;
        if bound <= ring_size() && m.contains_key(at) {
            below(m, (bound - 1) as nat).push((at, m[at]))
        } else {
            below(m, (bound - 1) as nat)
        }
    }
}

/// The entries of `m` clockwise: in increasing order of position.
pub open spec fn clockwise(m: Map<u64, usize>) -> Seq<(u64, usize)> {
    below(m, ring_size())
}

/// The entries behind `position`: strictly greater.
pub open spec fn behind(position: u64) -> spec_fn((u64, usize)) -> bool {
    |e: (u64, usize)| e.0 > position
}

/// The entries up to `position`: less or equal.
pub open spec fn upto(position: u64) -> spec_fn((u64, usize)) -> bool {
    |e: (u64, usize)| e.0 <= position
}

/// The side of `position` that a sweep looks at: the entries behind it
/// first, those up to it once the walk has wrapped.
pub open spec fn side(position: u64, wrapped: bool) -> spec_fn((u64, usize)) -> bool {
    if wrapped {
        upto(position)
    } else {
        behind(position)
    }
}

/// The walk from `position` through the listing `s`: the entries behind
/// the position, then, wrapping round, those up to it. An entry exactly at
/// the position comes last.
pub open spec fn walk(s: Seq<(u64, usize)>, position: u64) -> Seq<(u64, usize)> {
    s.filter(behind(position)) + s.filter(upto(position))
}

/// The group that `acc` grows into along `entries`: the node of each
/// entry joins, in order, unless it is in the group already or the group
/// has `limit` nodes.
pub open spec fn gather(acc: Seq<usize>, entries: Seq<(u64, usize)>, limit: nat) -> Seq<usize>
    decreases entries.len(),
{
    if entries.len() == 0 {
        acc
    } else {
        let g = gather(acc, entries.drop_last(), limit);
        let node = entries.last().1;
        if g.len() < limit && !g.contains(node) {
            g.push(node)
        } else {
            g
        }
    }
}

/// The write group of a key at `position` in the ring `m` with
/// `replicas` replicas: what the walk from the position gathers.
pub open spec fn group_for(m: Map<u64, usize>, replicas: nat, position: u64) -> Seq<usize> {
    gather(Seq::empty(), walk(clockwise(m), position), replicas)
}

/// The ring `m` after the first `replicas` virtual nodes of `node` were
/// put in.
pub open spec fn with_node(m: Map<u64, usize>, node: usize, replicas: nat) -> Map<u64, usize>
    decreases replicas,
{
    if replicas == 0 {
        m
    } else {
        with_node(m, node, (replicas - 1) as nat).insert(
            node_position(node as nat, (replicas - 1) as nat),
            node,
        )
    }
}

/// The ring `m` after the positions of the first `replicas` virtual
/// nodes of `node` were cleared.
pub open spec fn without_node(m: Map<u64, usize>, node: usize, replicas: nat) -> Map<u64, usize>
    decreases replicas,
{
    if replicas == 0 {
        m
    } else {
        without_node(m, node, (replicas - 1) as nat).remove(
            node_position(node as nat, (replicas - 1) as nat),
        )
    }
}

/// Whether `s` lists the entries of `m` at positions below `bound`.
spec fn lists_below(s: Seq<(u64, usize)>, m: Map<u64, usize>, bound: nat) -> bool {
    &&& forall|i: int, j: int| 0 <= i < j < s.len() ==> s[i].0 < s[j].0
    &&& forall|i: int|
        0 <= i < s.len() ==> (#[trigger] s[i]).0 < bound && m.contains_pair(s[i].0, s[i].1)
    &&& forall|k: u64| #[trigger]
        m.contains_key(k) && k < bound ==> exists|i: int|
            0 <= i < s.len() && #[trigger] s[i].0 == k
}

/// `below(m, bound)` lists the entries of `m` at positions below `bound`.
proof fn lemma_below(m: Map<u64, usize>, bound: nat)
    requires
        bound <= ring_size(),
    ensures
        lists_below(below(m, bound), m, bound),
    decreases bound,
{
    if bound > 0 {
        let prev = below(m, (bound - 1) as nat);
        let s = below(m, bound);
        let at = (bound - 1) as u64;
        lemma_below(m, (bound - 1) as nat);
        assert forall|i: int, j: int| 0 <= i < j < s.len() implies s[i].0 < s[j].0 by {
            assert(prev[i].0 < bound - 1);
            if j < prev.len() {
                assert(prev[i].0 < prev[j].0);
            }
        }
        assert forall|i: int| 0 <= i < s.len() implies (#[trigger] s[i]).0 < bound
            && m.contains_pair(s[i].0, s[i].1) by {
            if i < prev.len() {
                assert(prev[i].0 < bound - 1);
            }
        }
        assert forall|k: u64| #[trigger] m.contains_key(k) && k < bound implies exists|i: int|
            0 <= i < s.len() && #[trigger] s[i].0 == k by {
            if k < bound - 1 {
                let i = choose|i: int| 0 <= i < prev.len() && #[trigger] prev[i].0 == k;
                assert(s[i].0 == k);
            } else {
                assert(s[s.len() - 1].0 == k);
            }
        }
    }
}

/// The clockwise listing lists the ring.
pub proof fn lemma_clockwise_lists(m: Map<u64, usize>)
    ensures
        lists(clockwise(m), m),
{
    lemma_below(m, ring_size());
    let s = clockwise(m);
    assert forall|i: int| 0 <= i < s.len() implies #[trigger] m.contains_pair(s[i].0, s[i].1) by {
        assert(s[i].0 < ring_size());
    }
}

/// A ring has one listing only.
pub proof fn lemma_lists_unique(s: Seq<(u64, usize)>, t: Seq<(u64, usize)>, m: Map<u64, usize>)
    requires
        lists(s, m),
        lists(t, m),
    ensures
        s == t,
    decreases s.len(),
{
    if s.len() == 0 {
        if t.len() > 0 {
            assert(m.contains_pair(t[0].0, t[0].1));
            assert(m.contains_key(t[0].0));
        }
        assert(s =~= t);
    } else {
        let top = s.last();
        assert(m.contains_pair(top.0, top.1));
        assert(m.contains_key(top.0));
        let j = choose|j: int| 0 <= j < t.len() && #[trigger] t[j].0 == top.0;
        // Nothing in `t` lies behind `top`: it would be in `s` as well.
        if j < t.len() - 1 {
            let far = t[t.len() - 1];
            assert(m.contains_pair(far.0, far.1));
            assert(m.contains_key(far.0));
            let i = choose|i: int| 0 <= i < s.len() && #[trigger] s[i].0 == far.0;
            assert(false);
        }
        assert(m.contains_pair(t[j].0, t[j].1));
        let rest = m.remove(top.0);
        let s0 = s.drop_last();
        let t0 = t.drop_last();
        assert(lists(s0, rest)) by {
            assert forall|i: int| 0 <= i < s0.len() implies #[trigger] rest.contains_pair(
                s0[i].0,
                s0[i].1,
            ) by {
                assert(m.contains_pair(s[i].0, s[i].1));
            }
            assert forall|k: u64| #[trigger] rest.contains_key(k) implies exists|i: int|
                0 <= i < s0.len() && #[trigger] s0[i].0 == k by {
                assert(m.contains_key(k));
                let i = choose|i: int| 0 <= i < s.len() && #[trigger] s[i].0 == k;
                assert(s0[i].0 == k);
            }
        }
        assert(lists(t0, rest)) by {
            assert forall|i: int| 0 <= i < t0.len() implies #[trigger] rest.contains_pair(
                t0[i].0,
                t0[i].1,
            ) by {
                assert(m.contains_pair(t[i].0, t[i].1));
            }
            assert forall|k: u64| #[trigger] rest.contains_key(k) implies exists|i: int|
                0 <= i < t0.len() && #[trigger] t0[i].0 == k by {
                assert(m.contains_key(k));
                let i = choose|i: int| 0 <= i < t.len() && #[trigger] t[i].0 == k;
                assert(t0[i].0 == k);
            }
        }
        lemma_lists_unique(s0, t0, rest);
        assert(s =~= s0.push(top));
        assert(t =~= t0.push(t[j]));
    }
}

/// A group that is full stays as it is.
pub proof fn lemma_gather_full(acc: Seq<usize>, entries: Seq<(u64, usize)>, limit: nat)
    requires
        acc.len() >= limit,
    ensures
        gather(acc, entries, limit) == acc,
    decreases entries.len(),
{
    if entries.len() > 0 {
        lemma_gather_full(acc, entries.drop_last(), limit);
    }
}

/// Gathering along two stretches, one after the other, is gathering along
/// both.
pub proof fn lemma_gather_concat(
    acc: Seq<usize>,
    a: Seq<(u64, usize)>,
    b: Seq<(u64, usize)>,
    limit: nat,
)
    ensures
        gather(acc, a + b, limit) == gather(gather(acc, a, limit), b, limit),
    decreases b.len(),
{
    if b.len() == 0 {
        assert(a + b =~= a);
    } else {
        assert((a + b).drop_last() =~= a + b.drop_last());
        lemma_gather_concat(acc, a, b.drop_last(), limit);
    }
}

/// Gathering one entry more.
pub proof fn lemma_gather_push(
    acc: Seq<usize>,
    entries: Seq<(u64, usize)>,
    e: (u64, usize),
    limit: nat,
)
    ensures
        gather(acc, entries.push(e), limit) == {
            let g = gather(acc, entries, limit);
            if g.len() < limit && !g.contains(e.1) {
                g.push(e.1)
            } else {
                g
            }
        },
{
    assert(entries.push(e).drop_last() =~= entries);
}

} // verus!
