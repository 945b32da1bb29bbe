//! The group of nodes that a key is routed to: node indices in the order
//! in which the ring gave them.

use smallvec::SmallVec;
use vstd::prelude::*;

verus! {

/// The most items that a group is asked to make room for in advance.
/// Larger groups grow as items arrive.
pub const RESERVE_LIMIT: usize = 0x0fff_ffff;

/// An ordered group of node indices, held in a `SmallVec` that keeps up
/// to sixteen of them without allocating.
///
/// Trusted: Verus does not look inside. What it holds goes by the name
/// `items`, and the functions below say what they do to it.
#[verifier::external_body]
#[derive(Debug, PartialEq, Eq)]
pub struct Group {
    nodes: SmallVec<[usize; 16]>,
}

/// The node indices that a group holds, in order.
pub uninterp spec fn items(g: Group) -> Seq<usize>;

impl View for Group {
    type V = Seq<usize>;

    open spec fn view(&self) -> Seq<usize> {
        items(*self)
    }
}

impl Group {
    /// An empty group with room for `n` items.
    ///
    /// Trusted: calls `SmallVec::with_capacity`, which gives an empty
    /// vector. It panics where the room asked for is more than a memory
    /// layout can describe; `n` is kept far below that.
    #[verifier::external_body]
    pub(crate) fn with_room(n: usize) -> (g: Group)
        requires
            n <= RESERVE_LIMIT,
        ensures
            items(g) == Seq::<usize>::empty(),
    {
        Group { nodes: SmallVec::with_capacity(n) }
    }

    /// The number of items.
    ///
    /// Trusted: calls `SmallVec::len`.
    #[verifier::external_body]
    pub(crate) fn count(&self) -> (n: usize)
        ensures
            n == items(*self).len(),
    {
        self.nodes.len()
    }

    /// Whether `node` is among the items.
    ///
    /// Trusted: calls `contains` on the slice that the `SmallVec`
    /// dereferences to, which is its items.
    #[verifier::external_body]
    pub(crate) fn holds(&self, node: usize) -> (r: bool)
        ensures
            r == items(*self).contains(node),
    {
        self.nodes.contains(&node)
    }

    /// Appends `node`.
    ///
    /// Trusted: calls `SmallVec::push`, which writes the item behind the
    /// last one and leaves the others as they were.
    #[verifier::external_body]
    pub(crate) fn append(&mut self, node: usize)
        ensures
            items(*final(self)) == items(*old(self)).push(node),
    {
        self.nodes.push(node)
    }

    /// The item at `index`.
    ///
    /// Trusted: indexes the slice that the `SmallVec` dereferences to.
    #[verifier::external_body]
    pub(crate) fn item(&self, index: usize) -> (node: usize)
        requires
            index < items(*self).len(),
        ensures
            node == items(*self)[index as int],
    {
        self.nodes[index]
    }

    /// The number of nodes in the group.
    pub fn len(&self) -> (n: usize)
        ensures
            n == self@.len(),
    {
        self.count()
    }

    /// Whether `node` is in the group.
    pub fn contains(&self, node: usize) -> (r: bool)
        ensures
            r == self@.contains(node),
    {
        self.holds(node)
    }

    /// The node at `index`, or `None` behind the last one.
    pub fn get(&self, index: usize) -> (r: Option<usize>)
        ensures
            r == if index < self@.len() {
                Some(self@[index as int])
            } else {
                None
            },
    {
        if index < self.count() {
            Some(self.item(index))
        } else {
            None
        }
    }

    /// The nodes of the group, in order.
    pub fn to_vec(&self) -> (v: Vec<usize>)
        ensures
            v@ == self@,
    {
        let n = self.count();
        let mut v: Vec<usize> = Vec::new();
        let mut i: usize = 0;
        while i < n
            invariant
                i <= n,
                n == self@.len(),
                v@ == self@.take(i as int),
            decreases n - i,
        {
            v.push(self.item(i));
            assert(self@.take(i + 1) =~= self@.take(i as int).push(self@[i as int]));
            i = i + 1;
        }
        assert(self@.take(n as int) =~= self@);
        v
    }
}

} // verus!
