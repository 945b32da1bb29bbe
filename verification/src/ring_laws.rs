//! What holds of every ring: how adding and removing a node change it,
//! and what every write group is like.

use crate::digest::node_position;
use crate::ring_order::{
    behind, below, clockwise, gather, group_for, increasing, lemma_clockwise_lists,
    lemma_gather_push, ring_size, upto, walk, with_node, without_node,
};
use vstd::prelude::*;

verus! {

/// Whether `position` is where one of the first `replicas` virtual nodes
/// of `node` falls.
pub open spec fn stands_at(node: usize, replicas: nat, position: u64) -> bool {
    exists|i: nat| i < replicas && #[trigger] node_position(node as nat, i) == position
}

/// Whether the ring `m` has `node` at every position of its virtual
/// nodes: it was added, and no node that was added since took one of its
/// positions.
pub open spec fn holds_node(m: Map<u64, usize>, node: usize, replicas: nat) -> bool {
    forall|i: nat| i < replicas ==> m.contains_pair(#[trigger] node_position(node as nat, i), node)
}

/// Whether the ring `m` has nothing at the positions of the virtual nodes
/// of `node`.
pub open spec fn free_for(m: Map<u64, usize>, node: usize, replicas: nat) -> bool {
    forall|i: nat| i < replicas ==> !m.contains_key(#[trigger] node_position(node as nat, i))
}

proof fn lemma_stands_at_step(node: usize, replicas: nat, position: u64)
    requires
        replicas > 0,
    ensures
        stands_at(node, replicas, position) <==> stands_at(node, (replicas - 1) as nat, position)
            || node_position(node as nat, (replicas - 1) as nat) == position,
{
    if stands_at(node, replicas, position) {
        let i = choose|i: nat| i < replicas && #[trigger] node_position(node as nat, i) == position;
        if i < replicas - 1 {
            assert(stands_at(node, (replicas - 1) as nat, position));
        }
    }
    if stands_at(node, (replicas - 1) as nat, position) {
        let i = choose|i: nat|
            i < replicas - 1 && #[trigger] node_position(node as nat, i) == position;
        assert(i < replicas && node_position(node as nat, i) == position);
    }
    if node_position(node as nat, (replicas - 1) as nat) == position {
        let i = (replicas - 1) as nat;
        assert(i < replicas && node_position(node as nat, i) == position);
    }
}

/// Adding a node puts it at each of its positions and leaves every other
/// position as it was. Stated of one position.
pub proof fn lemma_with_node_at(m: Map<u64, usize>, node: usize, replicas: nat, k: u64)
    ensures
        with_node(m, node, replicas).contains_key(k) <==> m.contains_key(k) || stands_at(
            node,
            replicas,
            k,
        ),
        stands_at(node, replicas, k) ==> with_node(m, node, replicas)[k] == node,
        m.contains_key(k) && !stands_at(node, replicas, k) ==> with_node(m, node, replicas)[k]
            == m[k],
    decreases replicas,
{
    if replicas > 0 {
        lemma_with_node_at(m, node, (replicas - 1) as nat, k);
        lemma_stands_at_step(node, replicas, k);
    }
}

/// Removing a node clears each of its positions and leaves every other
/// position as it was. Stated of one position.
pub proof fn lemma_without_node_at(m: Map<u64, usize>, node: usize, replicas: nat, k: u64)
    ensures
        without_node(m, node, replicas).contains_key(k) <==> m.contains_key(k) && !stands_at(
            node,
            replicas,
            k,
        ),
        m.contains_key(k) && !stands_at(node, replicas, k) ==> without_node(m, node, replicas)[k]
            == m[k],
    decreases replicas,
{
    if replicas > 0 {
        lemma_without_node_at(m, node, (replicas - 1) as nat, k);
        lemma_stands_at_step(node, replicas, k);
    }
}

/// Adding a node puts it at each of its positions and leaves every other
/// position as it was.
pub proof fn lemma_with_node(m: Map<u64, usize>, node: usize, replicas: nat)
    ensures
        forall|k: u64| #[trigger]
            with_node(m, node, replicas).contains_key(k) <==> m.contains_key(k) || stands_at(
                node,
                replicas,
                k,
            ),
        forall|k: u64|
            stands_at(node, replicas, k) ==> #[trigger] with_node(m, node, replicas)[k] == node,
        forall|k: u64|
            m.contains_key(k) && !stands_at(node, replicas, k) ==> #[trigger] with_node(
                m,
                node,
                replicas,
            )[k] == m[k],
{
    assert forall|k: u64| #[trigger]
        with_node(m, node, replicas).contains_key(k) <==> m.contains_key(k) || stands_at(
            node,
            replicas,
            k,
        ) by {
        lemma_with_node_at(m, node, replicas, k);
    }
    assert forall|k: u64| stands_at(node, replicas, k) implies #[trigger] with_node(
        m,
        node,
        replicas,
    )[k] == node by {
        lemma_with_node_at(m, node, replicas, k);
    }
    assert forall|k: u64|
        m.contains_key(k) && !stands_at(node, replicas, k) implies #[trigger] with_node(
        m,
        node,
        replicas,
    )[k] == m[k] by {
        lemma_with_node_at(m, node, replicas, k);
    }
}

/// Removing a node clears each of its positions and leaves every other
/// position as it was.
pub proof fn lemma_without_node(m: Map<u64, usize>, node: usize, replicas: nat)
    ensures
        forall|k: u64| #[trigger]
            without_node(m, node, replicas).contains_key(k) <==> m.contains_key(k) && !stands_at(
                node,
                replicas,
                k,
            ),
        forall|k: u64|
            m.contains_key(k) && !stands_at(node, replicas, k) ==> #[trigger] without_node(
                m,
                node,
                replicas,
            )[k] == m[k],
{
    assert forall|k: u64| #[trigger]
        without_node(m, node, replicas).contains_key(k) <==> m.contains_key(k) && !stands_at(
            node,
            replicas,
            k,
        ) by {
        lemma_without_node_at(m, node, replicas, k);
    }
    assert forall|k: u64|
        m.contains_key(k) && !stands_at(node, replicas, k) implies #[trigger] without_node(
        m,
        node,
        replicas,
    )[k] == m[k] by {
        lemma_without_node_at(m, node, replicas, k);
    }
}

/// A node that was added stands at every position of its virtual nodes.
pub proof fn lemma_added_node_holds(m: Map<u64, usize>, node: usize, replicas: nat)
    ensures
        holds_node(with_node(m, node, replicas), node, replicas),
{
    lemma_with_node(m, node, replicas);
    assert forall|i: nat| i < replicas implies with_node(m, node, replicas).contains_pair(
        #[trigger] node_position(node as nat, i),
        node,
    ) by {
        assert(stands_at(node, replicas, node_position(node as nat, i)));
    }
}

/// Adding a node twice is adding it once.
pub proof fn lemma_add_twice(m: Map<u64, usize>, node: usize, replicas: nat)
    ensures
        with_node(with_node(m, node, replicas), node, replicas) == with_node(m, node, replicas),
{
    let once = with_node(m, node, replicas);
    lemma_with_node(m, node, replicas);
    lemma_with_node(once, node, replicas);
    assert(with_node(once, node, replicas) =~= once);
}

/// Removing a node and adding it again gives the ring back, and with it
/// the write group of every key, where the node stood at all of its
/// positions.
pub proof fn lemma_remove_then_add(m: Map<u64, usize>, node: usize, replicas: nat)
    requires
        holds_node(m, node, replicas),
    ensures
        with_node(without_node(m, node, replicas), node, replicas) == m,
        forall|position: u64|
            group_for(
                with_node(without_node(m, node, replicas), node, replicas),
                replicas,
                position,
            ) == group_for(m, replicas, position),
{
    let gone = without_node(m, node, replicas);
    let back = with_node(gone, node, replicas);
    lemma_without_node(m, node, replicas);
    lemma_with_node(gone, node, replicas);
    assert forall|k: u64| stands_at(node, replicas, k) implies m.contains_pair(k, node) by {
        let i = choose|i: nat| i < replicas && #[trigger] node_position(node as nat, i) == k;
        assert(m.contains_pair(node_position(node as nat, i), node));
    }
    assert(back =~= m);
}

/// Adding a node and removing it again gives the ring back where the
/// positions of the node were free.
pub proof fn lemma_add_then_remove(m: Map<u64, usize>, node: usize, replicas: nat)
    requires
        free_for(m, node, replicas),
    ensures
        without_node(with_node(m, node, replicas), node, replicas) == m,
{
    let there = with_node(m, node, replicas);
    lemma_with_node(m, node, replicas);
    lemma_without_node(there, node, replicas);
    assert forall|k: u64| stands_at(node, replicas, k) implies !m.contains_key(k) by {
        let i = choose|i: nat| i < replicas && #[trigger] node_position(node as nat, i) == k;
        assert(!m.contains_key(node_position(node as nat, i)));
    }
    assert(without_node(there, node, replicas) =~= m);
}

/// Removing a node that stands nowhere on the ring changes nothing.
pub proof fn lemma_remove_absent(m: Map<u64, usize>, node: usize, replicas: nat)
    requires
        free_for(m, node, replicas),
    ensures
        without_node(m, node, replicas) == m,
{
    lemma_without_node(m, node, replicas);
    assert forall|k: u64| stands_at(node, replicas, k) implies !m.contains_key(k) by {
        let i = choose|i: nat| i < replicas && #[trigger] node_position(node as nat, i) == k;
        assert(!m.contains_key(node_position(node as nat, i)));
    }
    assert(without_node(m, node, replicas) =~= m);
}

/// The order in which two nodes are added does not matter where no
/// position of the one is a position of the other.
pub proof fn lemma_add_commutes(m: Map<u64, usize>, a: usize, b: usize, replicas: nat)
    requires
        forall|k: u64| !(stands_at(a, replicas, k) && stands_at(b, replicas, k)),
    ensures
        with_node(with_node(m, a, replicas), b, replicas) == with_node(
            with_node(m, b, replicas),
            a,
            replicas,
        ),
{
    let ma = with_node(m, a, replicas);
    let mb = with_node(m, b, replicas);
    lemma_with_node(m, a, replicas);
    lemma_with_node(m, b, replicas);
    lemma_with_node(ma, b, replicas);
    lemma_with_node(mb, a, replicas);
    assert(with_node(ma, b, replicas) =~= with_node(mb, a, replicas));
}

/// Where the walk starts: the place in the listing `s` of the first entry
/// behind `position`, which is the number of entries up to it.
pub open spec fn start_of_walk(s: Seq<(u64, usize)>, position: u64) -> int {
    s.filter(upto(position)).len() as int
}

/// The entries up to a position are the front of the listing, and the
/// entries behind it are the rest.
proof fn lemma_listing_splits(s: Seq<(u64, usize)>, position: u64)
    requires
        increasing(s),
    ensures
        0 <= start_of_walk(s, position) <= s.len(),
        s.filter(upto(position)) == s.take(start_of_walk(s, position)),
        s.filter(behind(position)) == s.skip(start_of_walk(s, position)),
    decreases s.len(),
{
    if s.len() == 0 {
        reveal(Seq::filter);
        assert(s.filter(upto(position)) =~= s.take(0));
        assert(s.filter(behind(position)) =~= s.skip(0));
    } else {
        let t = s.drop_last();
        let e = s.last();
        let k = start_of_walk(t, position);
        assert(s =~= t.push(e));
        assert(increasing(t)) by {
            assert forall|i: int, j: int| 0 <= i < j < t.len() implies t[i].0 < t[j].0 by {
                assert(s[i].0 < s[j].0);
            }
        }
        lemma_listing_splits(t, position);
        t.lemma_filter_push(e, upto(position));
        t.lemma_filter_push(e, behind(position));
        if e.0 <= position {
            if k < t.len() {
                t.lemma_filter_pred(behind(position), 0);
                assert(t.skip(k)[0] == t[k]);
                assert(s[k].0 < s[s.len() - 1].0);
            }
            assert(t.take(k) =~= t);
            assert(t.skip(k) =~= Seq::empty());
            assert(s.filter(upto(position)) =~= s.take(s.len() as int));
            assert(s.filter(behind(position)) =~= s.skip(s.len() as int));
        } else {
            assert(s.filter(upto(position)) =~= s.take(k));
            assert(s.filter(behind(position)) =~= s.skip(k));
        }
    }
}

/// The walk is the listing, turned: it starts at the first entry whose
/// position is strictly greater than the key's, goes to the end of the
/// listing, and goes on from its front up to where it started.
pub proof fn lemma_walk_turns(s: Seq<(u64, usize)>, position: u64)
    requires
        increasing(s),
    ensures
        0 <= start_of_walk(s, position) <= s.len(),
        forall|i: int| 0 <= i < start_of_walk(s, position) ==> (#[trigger] s[i]).0 <= position,
        forall|i: int| start_of_walk(s, position) <= i < s.len() ==> (#[trigger] s[i]).0 > position,
        walk(s, position) == s.skip(start_of_walk(s, position)) + s.take(
            start_of_walk(s, position),
        ),
{
    let k = start_of_walk(s, position);
    lemma_listing_splits(s, position);
    assert forall|i: int| 0 <= i < k implies (#[trigger] s[i]).0 <= position by {
        s.lemma_filter_pred(upto(position), i);
        assert(s.take(k)[i] == s[i]);
    }
    assert forall|i: int| k <= i < s.len() implies (#[trigger] s[i]).0 > position by {
        s.lemma_filter_pred(behind(position), i - k);
        assert(s.skip(k)[i - k] == s[i]);
    }
}

/// The nodes of a stretch of entries, in order and with repetitions.
pub open spec fn node_seq(entries: Seq<(u64, usize)>) -> Seq<usize> {
    Seq::new(entries.len(), |i: int| entries[i].1)
}

/// What gathering does to a group: the group keeps its nodes and their
/// order, takes new nodes from the entries only, never a node twice and
/// never more than the limit; and while it is short of the limit it has
/// taken every node of the entries.
pub proof fn lemma_gather(acc: Seq<usize>, entries: Seq<(u64, usize)>, limit: nat)
    requires
        acc.no_duplicates(),
    ensures
        gather(acc, entries, limit).no_duplicates(),
        acc.len() <= limit ==> gather(acc, entries, limit).len() <= limit,
        acc.is_prefix_of(gather(acc, entries, limit)),
        forall|n: usize| #[trigger]
            gather(acc, entries, limit).contains(n) ==> acc.contains(n) || node_seq(
                entries,
            ).contains(n),
        gather(acc, entries, limit).len() < limit ==> forall|n: usize| #[trigger]
            node_seq(entries).contains(n) ==> gather(acc, entries, limit).contains(n),
    decreases entries.len(),
{
    let g = gather(acc, entries, limit);
    if entries.len() > 0 {
        let before = entries.drop_last();
        let h = gather(acc, before, limit);
        let node = entries.last().1;
        lemma_gather(acc, before, limit);
        assert forall|n: usize| #[trigger] g.contains(n) implies acc.contains(n) || node_seq(
            entries,
        ).contains(n) by {
            if h.contains(n) {
                if !acc.contains(n) {
                    let i = choose|i: int| 0 <= i < before.len() && node_seq(before)[i] == n;
                    assert(node_seq(entries)[i] == n);
                }
            } else {
                let i = choose|i: int| 0 <= i < g.len() && g[i] == n;
                if i < h.len() {
                    assert(h[i] == n);
                }
                assert(node_seq(entries)[entries.len() - 1] == n);
            }
        }
        if g.len() < limit {
            assert forall|n: usize| #[trigger] node_seq(entries).contains(n) implies g.contains(
                n,
            ) by {
                let i = choose|i: int| 0 <= i < entries.len() && node_seq(entries)[i] == n;
                if i < before.len() {
                    assert(node_seq(before)[i] == n);
                    assert(node_seq(before).contains(n));
                    assert(h.len() < limit);
                    assert(h.contains(n));
                    let j = choose|j: int| 0 <= j < h.len() && h[j] == n;
                    assert(g[j] == n);
                } else if !h.contains(n) {
                    assert(g[g.len() - 1] == n);
                } else {
                    let j = choose|j: int| 0 <= j < h.len() && h[j] == n;
                    assert(g[j] == n);
                }
            }
        }
    }
}

/// The nodes met on a walk are the nodes of the listing that is walked.
pub proof fn lemma_walk_nodes(s: Seq<(u64, usize)>, position: u64, n: usize)
    ensures
        node_seq(walk(s, position)).contains(n) <==> node_seq(s).contains(n),
{
    let far = s.filter(behind(position));
    let near = s.filter(upto(position));
    let w = walk(s, position);
    if node_seq(w).contains(n) {
        let i = choose|i: int| 0 <= i < w.len() && node_seq(w)[i] == n;
        let e = w[i];
        if i < far.len() {
            assert(far[i] == e);
            assert(far.contains(e));
            s.lemma_filter_contains_rev(behind(position), e);
        } else {
            assert(near[i - far.len()] == e);
            assert(near.contains(e));
            s.lemma_filter_contains_rev(upto(position), e);
        }
        let j = choose|j: int| 0 <= j < s.len() && s[j] == e;
        assert(node_seq(s)[j] == n);
    }
    if node_seq(s).contains(n) {
        let j = choose|j: int| 0 <= j < s.len() && node_seq(s)[j] == n;
        let e = s[j];
        if e.0 > position {
            s.lemma_filter_contains(behind(position), j);
            let i = choose|i: int| 0 <= i < far.len() && far[i] == e;
            assert(w[i] == e);
            assert(node_seq(w)[i] == n);
        } else {
            s.lemma_filter_contains(upto(position), j);
            let i = choose|i: int| 0 <= i < near.len() && near[i] == e;
            assert(w[far.len() + i] == e);
            assert(node_seq(w)[far.len() + i] == n);
        }
    }
}

/// The nodes of the clockwise listing are the nodes on the ring.
pub proof fn lemma_clockwise_nodes(m: Map<u64, usize>)
    ensures
        node_seq(clockwise(m)).to_set() == m.values(),
        m.values().finite(),
{
    let s = clockwise(m);
    lemma_clockwise_lists(m);
    assert forall|n: usize| node_seq(s).to_set().contains(n) <==> m.values().contains(n) by {
        if node_seq(s).contains(n) {
            let i = choose|i: int| 0 <= i < s.len() && node_seq(s)[i] == n;
            assert(m.contains_pair(s[i].0, s[i].1));
            assert(m.contains_key(s[i].0) && m[s[i].0] == n);
        }
        if m.values().contains(n) {
            let k = choose|k: u64| #[trigger] m.contains_key(k) && m[k] == n;
            assert(m.contains_key(k));
            let i = choose|i: int| 0 <= i < s.len() && #[trigger] s[i].0 == k;
            assert(m.contains_pair(s[i].0, s[i].1));
            assert(node_seq(s)[i] == n);
        }
    }
    assert(node_seq(s).to_set() =~= m.values());
    vstd::seq_lib::seq_to_set_is_finite(node_seq(s));
}

/// Every write group: it holds nodes of the ring only, no node twice,
/// never more nodes than the ring has replicas, and as many as that
/// unless the ring has fewer nodes, all of which it then holds.
pub proof fn lemma_write_group(m: Map<u64, usize>, replicas: nat, position: u64)
    ensures
        group_for(m, replicas, position).no_duplicates(),
        forall|n: usize| #[trigger]
            group_for(m, replicas, position).contains(n) ==> m.values().contains(n),
        m.values().finite(),
        group_for(m, replicas, position).len() == if replicas <= m.values().len() {
            replicas
        } else {
            m.values().len()
        },
{
    let s = clockwise(m);
    let w = walk(s, position);
    let g = group_for(m, replicas, position);
    lemma_gather(Seq::empty(), w, replicas);
    lemma_clockwise_nodes(m);
    assert forall|n: usize| #[trigger] g.contains(n) implies m.values().contains(n) by {
        lemma_walk_nodes(s, position, n);
        assert(node_seq(s).to_set().contains(n));
    }
    g.unique_seq_to_set();
    assert(g.to_set().subset_of(m.values())) by {
        assert forall|n: usize| g.to_set().contains(n) implies m.values().contains(n) by {
            assert(g.contains(n));
        }
    }
    vstd::set_lib::lemma_len_subset(g.to_set(), m.values());
    if g.len() < replicas {
        assert forall|n: usize| m.values().contains(n) implies g.to_set().contains(n) by {
            assert(node_seq(s).to_set().contains(n));
            lemma_walk_nodes(s, position, n);
        }
        assert(g.to_set() =~= m.values());
    }
}

/// The write group of a key is decided by what stands on the ring, the
/// number of replicas and the key's position: two rings that hold the
/// same entries give the same group, however they came to hold them.
pub proof fn lemma_group_is_determined(
    m1: Map<u64, usize>,
    m2: Map<u64, usize>,
    replicas: nat,
    position: u64,
)
    requires
        forall|k: u64| m1.contains_key(k) <==> m2.contains_key(k),
        forall|k: u64| m1.contains_key(k) ==> m1[k] == m2[k],
    ensures
        group_for(m1, replicas, position) == group_for(m2, replicas, position),
{
    assert(m1 =~= m2);
}

/// A ring without nodes gives every key the empty group.
pub proof fn lemma_empty_ring(replicas: nat, position: u64)
    ensures
        group_for(Map::<u64, usize>::empty(), replicas, position) == Seq::<usize>::empty(),
{
    let m = Map::<u64, usize>::empty();
    lemma_write_group(m, replicas, position);
    assert(m.values() =~= Set::<usize>::empty());
    assert(group_for(m, replicas, position) =~= Seq::<usize>::empty());
}

/// The entries of every node but `node`.
pub open spec fn other_than(node: usize) -> spec_fn((u64, usize)) -> bool {
    |e: (u64, usize)| e.1 != node
}

/// Picking by one rule and then by another is picking by the other and
/// then by the one.
proof fn lemma_filter_twice(
    s: Seq<(u64, usize)>,
    a: spec_fn((u64, usize)) -> bool,
    b: spec_fn((u64, usize)) -> bool,
)
    ensures
        s.filter(a).filter(b) == s.filter(b).filter(a),
    decreases s.len(),
{
    if s.len() == 0 {
        reveal(Seq::filter);
        assert(s.filter(a) =~= s);
        assert(s.filter(b) =~= s);
    } else {
        let before = s.drop_last();
        let e = s.last();
        assert(s =~= before.push(e));
        lemma_filter_twice(before, a, b);
        before.lemma_filter_push(e, a);
        before.lemma_filter_push(e, b);
        before.filter(a).lemma_filter_push(e, b);
        before.filter(b).lemma_filter_push(e, a);
    }
}

/// A walk through the entries of some nodes is the walk through all
/// entries, with the entries of the other nodes left out.
proof fn lemma_walk_of_some(s: Seq<(u64, usize)>, position: u64, node: usize)
    ensures
        walk(s, position).filter(other_than(node)) == walk(
            s.filter(other_than(node)),
            position,
        ),
{
    let keep = other_than(node);
    Seq::filter_distributes_over_add(s.filter(behind(position)), s.filter(upto(position)), keep);
    lemma_filter_twice(s, behind(position), keep);
    lemma_filter_twice(s, upto(position), keep);
}

/// A ring to which a new node was added, listed without the entries of
/// that node, is the ring as it was.
proof fn lemma_below_without(m: Map<u64, usize>, node: usize, replicas: nat, bound: nat)
    requires
        free_for(m, node, replicas),
        !m.values().contains(node),
        bound <= ring_size(),
    ensures
        below(with_node(m, node, replicas), bound).filter(other_than(node)) == below(m, bound),
    decreases bound,
{
    let added = with_node(m, node, replicas);
    let keep = other_than(node);
    if bound == 0 {
        reveal(Seq::filter);
        assert(below(added, bound).filter(keep) =~= below(m, bound));
    } else {
        let at = (bound - 1) as u64;
        let prev = below(added, (bound - 1) as nat);
        lemma_below_without(m, node, replicas, (bound - 1) as nat);
        lemma_with_node_at(m, node, replicas, at);
        if stands_at(node, replicas, at) {
            let i = choose|i: nat| i < replicas && #[trigger] node_position(node as nat, i) == at;
            assert(!m.contains_key(node_position(node as nat, i)));
        }
        if m.contains_key(at) {
            assert(m.values().contains(m[at]));
        }
        if added.contains_key(at) {
            prev.lemma_filter_push((at, added[at]), keep);
        }
    }
}

/// A group that has not taken a node is the group that the entries of
/// the other nodes give.
proof fn lemma_gather_without(
    acc: Seq<usize>,
    entries: Seq<(u64, usize)>,
    node: usize,
    limit: nat,
)
    requires
        !gather(acc, entries, limit).contains(node),
    ensures
        gather(acc, entries, limit) == gather(acc, entries.filter(other_than(node)), limit),
    decreases entries.len(),
{
    let keep = other_than(node);
    if entries.len() == 0 {
        reveal(Seq::filter);
        assert(entries.filter(keep) =~= entries);
    } else {
        let before = entries.drop_last();
        let e = entries.last();
        let h = gather(acc, before, limit);
        let g = gather(acc, entries, limit);
        assert(entries =~= before.push(e));
        assert(!h.contains(node)) by {
            if h.contains(node) {
                let i = choose|i: int| 0 <= i < h.len() && h[i] == node;
                assert(g[i] == node);
            }
        }
        lemma_gather_without(acc, before, node, limit);
        before.lemma_filter_push(e, keep);
        if e.1 == node {
            if g != h {
                assert(g[g.len() - 1] == node);
            }
        } else {
            lemma_gather_push(acc, before.filter(keep), e, limit);
        }
    }
}

/// Churn: adding a new node, at positions that were free, changes the
/// write group of a key only if the node joins that group. The group of
/// every other key stays as it was, node for node.
pub proof fn lemma_added_node_churn(
    m: Map<u64, usize>,
    node: usize,
    replicas: nat,
    position: u64,
)
    requires
        free_for(m, node, replicas),
        !m.values().contains(node),
    ensures
        !group_for(with_node(m, node, replicas), replicas, position).contains(node) ==> group_for(
            with_node(m, node, replicas),
            replicas,
            position,
        ) == group_for(m, replicas, position),
{
    let added = with_node(m, node, replicas);
    let far = walk(clockwise(added), position);
    if !group_for(added, replicas, position).contains(node) {
        lemma_gather_without(Seq::empty(), far, node, replicas);
        lemma_walk_of_some(clockwise(added), position, node);
        lemma_below_without(m, node, replicas, ring_size());
    }
}

/// Churn on removal: removing a node that stands at all of its positions,
/// and nowhere else, changes the write group of a key only if the node was
/// in that group.
pub proof fn lemma_removed_node_churn(
    m: Map<u64, usize>,
    node: usize,
    replicas: nat,
    position: u64,
)
    requires
        holds_node(m, node, replicas),
        forall|k: u64| #[trigger]
            m.contains_key(k) && m[k] == node ==> stands_at(node, replicas, k),
    ensures
        !group_for(m, replicas, position).contains(node) ==> group_for(
            without_node(m, node, replicas),
            replicas,
            position,
        ) == group_for(m, replicas, position),
{
    let rest = without_node(m, node, replicas);
    lemma_remove_then_add(m, node, replicas);
    lemma_without_node(m, node, replicas);
    assert(free_for(rest, node, replicas)) by {
        assert forall|i: nat| i < replicas implies !rest.contains_key(
            #[trigger] node_position(node as nat, i),
        ) by {
            assert(stands_at(node, replicas, node_position(node as nat, i)));
        }
    }
    assert(!rest.values().contains(node)) by {
        if rest.values().contains(node) {
            let k = choose|k: u64| #[trigger] rest.contains_key(k) && rest[k] == node;
            assert(m.contains_key(k) && m[k] == node);
        }
    }
    lemma_added_node_churn(rest, node, replicas, position);
}

} // verus!
