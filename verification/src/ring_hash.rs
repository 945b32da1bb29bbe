//! The consistent-hashing ring: a map from positions to node indices, on
//! which each node stands at as many positions as the ring has replicas.

use crate::digest::{key_position, position_of_key, virtual_position};
use crate::group::{Group, RESERVE_LIMIT};
use crate::ring_laws::lemma_write_group;
use crate::ring_order::{
    clockwise, gather, group_for, lemma_clockwise_lists, lemma_gather_concat, lemma_gather_full,
    lemma_gather_push, lemma_lists_unique, lists, side, with_node, without_node,
};
use std::collections::BTreeMap;
use vstd::prelude::*;
use vstd::std_specs::btree::{axiom_increasing_seq_meaning, increasing_seq};
use vstd::std_specs::cmp::OrdSpec;
use vstd::std_specs::iter::IteratorSpec;

verus! {

/// Positions that increase in the sense of `Ord` increase as numbers.
proof fn lemma_increasing(keys: Seq<u64>)
    requires
        increasing_seq(keys),
    ensures
        forall|i: int, j: int| 0 <= i < j < keys.len() ==> keys[i] < keys[j],
{
    axiom_increasing_seq_meaning(keys);
    assert forall|i: int, j: int| 0 <= i < j < keys.len() implies keys[i] < keys[j] by {
        assert(keys[i].cmp_spec(&keys[j]) is Less);
    }
}

/// The entries that an iteration of the map hands out, by value.
spec fn by_value(items: Seq<(&u64, &usize)>) -> Seq<(u64, usize)> {
    items.map_values(|kv: (&u64, &usize)| (*kv.0, *kv.1))
}

/// The positions that an iteration of the map hands out.
spec fn positions(items: Seq<(&u64, &usize)>) -> Seq<u64> {
    items.map_values(|kv: (&u64, &usize)| *kv.0)
}

/// Items that increase and are the entries of `m` are its entries
/// clockwise.
proof fn lemma_order_of(items: Seq<(&u64, &usize)>, m: Map<u64, usize>)
    requires
        increasing_seq(positions(items)),
        forall|i: int| 0 <= i < items.len() ==> m.contains_pair(*items[i].0, *items[i].1),
        forall|k: u64| #[trigger] m.contains_key(k) ==> items.contains((&k, &m[k])),
    ensures
        by_value(items) == clockwise(m),
{
    let all = by_value(items);
    lemma_increasing(positions(items));
    assert(lists(all, m)) by {
        assert forall|i: int, j: int| 0 <= i < j < all.len() implies all[i].0 < all[j].0 by {
            assert(positions(items)[i] < positions(items)[j]);
        }
        assert forall|k: u64| #[trigger] m.contains_key(k) implies exists|i: int|
            0 <= i < all.len() && #[trigger] all[i].0 == k by {
            assert(items.contains((&k, &m[k])));
            let i = choose|i: int| 0 <= i < items.len() && items[i] == (&k, &m[k]);
            assert(all[i].0 == k);
        }
    }
    lemma_clockwise_lists(m);
    lemma_lists_unique(all, clockwise(m), m);
}

/// An iteration of the map hands out its entries clockwise.
proof fn lemma_iteration_order(ring: &BTreeMap<u64, usize>)
    ensures
        increasing_seq(positions(ring.iter().remaining())) ==> by_value(ring.iter().remaining())
            == clockwise(ring@),
{
    let items = ring.iter().remaining();
    if increasing_seq(positions(items)) {
        lemma_order_of(items, ring@);
    }
}

/// A ring of virtual nodes.
pub struct RingHash {
    /// From the position of a virtual node to the index of its node.
    ring: BTreeMap<u64, usize>,
    /// The number of virtual nodes of each node, and the most nodes that
    /// a write group has.
    repl: usize,
}

impl RingHash {
    /// The ring as a map from positions to node indices.
    pub closed spec fn entries(&self) -> Map<u64, usize> {
        self.ring@
    }

    /// The number of replicas that the ring was made with.
    pub closed spec fn replicas(&self) -> nat {
        self.repl as nat
    }

    /// An empty ring with `repl` replicas.
    pub fn new(repl: usize) -> (r: Self)
        ensures
            r.entries() == Map::<u64, usize>::empty(),
            r.replicas() == repl,
    {
        RingHash { ring: BTreeMap::new(), repl }
    }

    /// The number of replicas that the ring was made with.
    pub fn repl(&self) -> (n: usize)
        ensures
            n == self.replicas(),
    {
        self.repl
    }

    /// The number of positions at which a node stands.
    pub fn len(&self) -> (n: usize)
        ensures
            n == self.entries().dom().len(),
    {
        self.ring.len()
    }

    /// Puts `node_index` at `position`, in place of the node that stood
    /// there, if one did.
    pub fn place(&mut self, position: u64, node_index: usize)
        ensures
            final(self).replicas() == old(self).replicas(),
            final(self).entries() == old(self).entries().insert(position, node_index),
    {
        self.ring.insert(position, node_index);
    }

    /// Clears `position`, whichever node stood there.
    pub fn clear(&mut self, position: u64)
        ensures
            final(self).replicas() == old(self).replicas(),
            final(self).entries() == old(self).entries().remove(position),
    {
        self.ring.remove(&position);
    }

    /// Puts the node at the positions of its virtual nodes.
    pub fn add_node(&mut self, node_index: usize)
        ensures
            final(self).replicas() == old(self).replicas(),
            final(self).entries() == with_node(
                old(self).entries(),
                node_index,
                old(self).replicas(),
            ),
    {
        let mut i: usize = 0;
        while i < self.repl
            invariant
                i <= self.repl,
                self.repl == old(self).repl,
                self.ring@ == with_node(old(self).ring@, node_index, i as nat),
            decreases self.repl - i,
        {
            let position = virtual_position(node_index, i);
            self.place(position, node_index);
            i = i + 1;
        }
    }

    /// Clears the positions of the node's virtual nodes. A node that was
    /// never added leaves the ring as it is, unless another node stands at
    /// one of those positions.
    pub fn remove_node(&mut self, node_index: usize)
        ensures
            final(self).replicas() == old(self).replicas(),
            final(self).entries() == without_node(
                old(self).entries(),
                node_index,
                old(self).replicas(),
            ),
    {
        let mut i: usize = 0;
        while i < self.repl
            invariant
                i <= self.repl,
                self.repl == old(self).repl,
                self.ring@ == without_node(old(self).ring@, node_index, i as nat),
            decreases self.repl - i,
        {
            let position = virtual_position(node_index, i);
            self.clear(position);
            i = i + 1;
        }
    }

    /// Goes once through the ring, clockwise, and lets the nodes on one
    /// side of `position` join `group`, up to the number of replicas.
    fn sweep(&self, position: u64, wrapped: bool, group: &mut Group)
        ensures
            final(group)@ == gather(
                old(group)@,
                clockwise(self.entries()).filter(side(position, wrapped)),
                self.replicas(),
            ),
    {
        let ghost start = group@;
        let ghost order = clockwise(self.ring@);
        let ghost pick = side(position, wrapped);
        proof {
            lemma_iteration_order(&self.ring);
        }
        for kv in it: self.ring.iter()
            invariant
                start == old(group)@,
                by_value(it.seq()) == order,
                order == clockwise(self.ring@),
                pick == side(position, wrapped),
                group@ == gather(
                    start,
                    order.take(it.index() as int).filter(pick),
                    self.repl as nat,
                ),
        {
            let ghost seen = order.take(it.index() as int);
            let ghost entry = (*kv.0, *kv.1);
            if group.count() >= self.repl {
                proof {
                    let ahead = order.skip(it.index() as int);
                    assert(order =~= seen + ahead);
                    Seq::filter_distributes_over_add(seen, ahead, pick);
                    lemma_gather_concat(
                        start,
                        seen.filter(pick),
                        ahead.filter(pick),
                        self.repl as nat,
                    );
                    lemma_gather_full(group@, ahead.filter(pick), self.repl as nat);
                }
                return;
            }
            proof {
                assert(order.take(it.index() + 1) =~= seen.push(entry));
                seen.lemma_filter_push(entry, pick);
                lemma_gather_push(start, seen.filter(pick), entry, self.repl as nat);
            }
            if (*kv.0 > position) != wrapped && !group.holds(*kv.1) {
                group.append(*kv.1);
            }
        }
        assert(order.take(order.len() as int) =~= order);
    }

    /// The write group of a key that falls at `position`: the nodes met
    /// on the walk that starts behind the position and wraps round the
    /// ring, each node once, until the group has as many nodes as the ring
    /// has replicas or the ring has no other node. An empty ring gives an
    /// empty group.
    pub fn write_group_at(&self, position: u64) -> (group: Group)
        ensures
            group@ == group_for(self.entries(), self.replicas(), position),
            group@.no_duplicates(),
            group@.len() == if self.replicas() <= self.entries().values().len() {
                self.replicas()
            } else {
                self.entries().values().len()
            },
            forall|n: usize| #[trigger] group@.contains(n) ==> self.entries().values().contains(n),
    {
        let entries = self.ring.len();
        let mut room = if self.repl < entries {
            self.repl
        } else {
            entries
        };
        if room > RESERVE_LIMIT {
            room = RESERVE_LIMIT;
        }
        let mut group = Group::with_room(room);
        self.sweep(position, false, &mut group);
        self.sweep(position, true, &mut group);
        proof {
            let order = clockwise(self.ring@);
            lemma_gather_concat(
                Seq::empty(),
                order.filter(side(position, false)),
                order.filter(side(position, true)),
                self.repl as nat,
            );
            lemma_write_group(self.ring@, self.repl as nat, position);
        }
        group
    }

    /// The write group of `key`.
    pub fn write_group(&self, key: &str) -> (group: Group)
        ensures
            group@ == group_for(self.entries(), self.replicas(), key_position(key@)),
            group@.no_duplicates(),
            group@.len() == if self.replicas() <= self.entries().values().len() {
                self.replicas()
            } else {
                self.entries().values().len()
            },
            forall|n: usize| #[trigger] group@.contains(n) ==> self.entries().values().contains(n),
    {
        self.write_group_at(position_of_key(key))
    }
}

} // verus!
