//! Ghost model of the partition tree.
//!
//! A `Shape` mirrors the structure of the live nodes of a [`crate::tree::Tree`]:
//! which pool slots are in use and how they are linked.  All tree invariants
//! are phrased over a shape together with the node pool it describes, and the
//! exec operations carry the shape along as ghost state.

use vstd::prelude::*;

use crate::tree::Node;

verus! {

/// What a live leaf holds, keyed in [`Shape::leaf_map`] by the extent's `begin`.
pub ghost struct LeafInfo {
    pub end: u64,
    pub cursor: u64,
    pub holders: nat,
}

/// The structure of a live subtree: the pool slot of each node, and the two
/// children of every internal node.
pub ghost enum Shape {
    Leaf { idx: int },
    Fork { idx: int, left: Box<Shape>, right: Box<Shape> },
}

impl Shape {
    /// The pool slot of the subtree's root node.
    pub open spec fn idx(self) -> int {
        match self {
            Shape::Leaf { idx } => idx,
            Shape::Fork { idx, .. } => idx,
        }
    }

    pub open spec fn height(self) -> nat
        decreases self,
    {
        match self {
            Shape::Leaf { .. } => 1,
            Shape::Fork { left, right, .. } => 1 + if left.height() >= right.height() {
                left.height()
            } else {
                right.height()
            },
        }
    }

    /// How many pool slots the subtree occupies.
    pub open spec fn count(self) -> nat
        decreases self,
    {
        match self {
            Shape::Leaf { .. } => 1,
            Shape::Fork { left, right, .. } => 1 + left.count() + right.count(),
        }
    }

    /// The pool slots occupied by the subtree.
    pub open spec fn node_set(self) -> Set<int>
        decreases self,
    {
        match self {
            Shape::Leaf { idx } => set![idx],
            Shape::Fork { idx, left, right } => left.node_set().union(right.node_set()).insert(
                idx,
            ),
        }
    }

    /// The holder count stored at the subtree's root node.
    pub open spec fn holders(self, nodes: Seq<Node>) -> int {
        nodes[self.idx()].spec_holders()
    }

    /// A subtree is at least as wide as it is tall.
    pub proof fn lemma_height_le_count(self)
        ensures
            self.height() <= self.count(),
        decreases self,
    {
        match self {
            Shape::Leaf { .. } => {},
            Shape::Fork { left, right, .. } => {
                left.lemma_height_le_count();
                right.lemma_height_le_count();
            },
        }
    }

    /// Well-formedness of the subtree over the pool `nodes`, within the block
    /// range `[lo, hi)`:
    /// - every slot index is in bounds and holds a node of the right kind;
    /// - a leaf's extent satisfies `lo <= begin <= cursor <= end <= hi`;
    /// - an internal node's `cut` lies strictly inside the range, its child
    ///   links match the shape, its holder count is the sum of its children's,
    ///   and its free-block hint never exceeds the range width;
    /// - the slots of distinct subtrees are disjoint.
    pub open spec fn wf(self, nodes: Seq<Node>, lo: int, hi: int) -> bool
        decreases self,
    {
        match self {
            Shape::Leaf { idx } => {
                &&& 0 <= idx < nodes.len()
                &&& match nodes[idx] {
                    Node::Leaf(l) => {
                        &&& lo <= l.extent.begin
                        &&& l.extent.begin <= l.extent.cursor
                        &&& l.extent.cursor <= l.extent.end
                        &&& l.extent.end <= hi
                        &&& (l.extent.begin < hi || lo == hi)
                    },
                    Node::Internal(_) => false,
                }
            },
            Shape::Fork { idx, left, right } => {
                &&& 0 <= idx < nodes.len()
                &&& match nodes[idx] {
                    Node::Internal(n) => {
                        &&& lo < n.cut < hi
                        &&& n.left == left.idx()
                        &&& n.right == right.idx()
                        &&& n.nr_free_blocks <= hi - lo
                        &&& n.holders == left.holders(nodes) + right.holders(nodes)
                        &&& left.wf(nodes, lo, n.cut as int)
                        &&& right.wf(nodes, n.cut as int, hi)
                        &&& !left.node_set().contains(idx)
                        &&& !right.node_set().contains(idx)
                        &&& left.node_set().disjoint(right.node_set())
                    },
                    Node::Leaf(_) => false,
                }
            },
        }
    }

    /// The total free capacity of the subtree: the sum of `end - cursor` over
    /// its leaves.  Splits conserve it; only cursor movement spends it.
    pub open spec fn capacity(self, nodes: Seq<Node>) -> int
        decreases self,
    {
        match self {
            Shape::Leaf { idx } => match nodes[idx] {
                Node::Leaf(l) => l.extent.end - l.extent.cursor,
                Node::Internal(_) => 0,
            },
            Shape::Fork { left, right, .. } => left.capacity(nodes) + right.capacity(nodes),
        }
    }

    pub proof fn lemma_capacity_nonneg(self, nodes: Seq<Node>, lo: int, hi: int)
        requires
            self.wf(nodes, lo, hi),
        ensures
            self.capacity(nodes) >= 0,
        decreases self,
    {
        match self {
            Shape::Leaf { idx } => {},
            Shape::Fork { idx, left, right } => {
                let cut = nodes[idx]->Internal_0.cut;
                left.lemma_capacity_nonneg(nodes, lo, cut as int);
                right.lemma_capacity_nonneg(nodes, cut as int, hi);
            },
        }
    }

    /// The live leaves of the subtree, keyed by their extents' `begin`.
    pub open spec fn leaf_map(self, nodes: Seq<Node>) -> Map<u64, LeafInfo>
        decreases self,
    {
        match self {
            Shape::Leaf { idx } => match nodes[idx] {
                Node::Leaf(l) => map![
                    l.extent.begin => LeafInfo {
                        end: l.extent.end,
                        cursor: l.extent.cursor,
                        holders: l.holders as nat,
                    }
                ],
                Node::Internal(_) => Map::empty(),
            },
            Shape::Fork { left, right, .. } => left.leaf_map(nodes).union_prefer_right(
                right.leaf_map(nodes),
            ),
        }
    }

    /// A subtree depends only on the pool slots it occupies: rewriting other
    /// slots changes neither its well-formedness nor what it describes.
    pub proof fn lemma_frame(self, nodes1: Seq<Node>, nodes2: Seq<Node>, lo: int, hi: int)
        requires
            self.wf(nodes1, lo, hi),
            nodes2.len() == nodes1.len(),
            forall|i: int| self.node_set().contains(i) ==> nodes2[i] == nodes1[i],
        ensures
            self.wf(nodes2, lo, hi),
            self.leaf_map(nodes2) == self.leaf_map(nodes1),
            self.holders(nodes2) == self.holders(nodes1),
            self.capacity(nodes2) == self.capacity(nodes1),
        decreases self,
    {
        match self {
            Shape::Leaf { idx } => {},
            Shape::Fork { idx, left, right } => {
                let cut = nodes1[idx]->Internal_0.cut;
                left.lemma_frame(nodes1, nodes2, lo, cut as int);
                right.lemma_frame(nodes1, nodes2, cut as int, hi);
            },
        }
    }

    /// Well-formedness survives widening the block range, as happens when a
    /// subtree is hoisted into its freed parent's place.
    pub proof fn lemma_widen(self, nodes: Seq<Node>, lo: int, hi: int, lo2: int, hi2: int)
        requires
            self.wf(nodes, lo, hi),
            lo < hi,
            lo2 <= lo,
            hi <= hi2,
        ensures
            self.wf(nodes, lo2, hi2),
        decreases self,
    {
        match self {
            Shape::Leaf { idx } => {},
            Shape::Fork { idx, left, right } => {
                let cut = nodes[idx]->Internal_0.cut;
                left.lemma_widen(nodes, lo, cut as int, lo2, cut as int);
                right.lemma_widen(nodes, cut as int, hi, cut as int, hi2);
            },
        }
    }

    /// The `begin` of the leftmost live leaf: a witness that a well-formed
    /// subtree always describes at least one leaf.
    pub open spec fn first_leaf_begin(self, nodes: Seq<Node>) -> u64
        decreases self,
    {
        match self {
            Shape::Leaf { idx } => match nodes[idx] {
                Node::Leaf(l) => l.extent.begin,
                Node::Internal(_) => 0,
            },
            Shape::Fork { left, .. } => left.first_leaf_begin(nodes),
        }
    }

    /// Every key of the leaf map is the `begin` of a live leaf inside the
    /// range, and its record satisfies the extent invariant.
    pub proof fn lemma_dom_props(self, nodes: Seq<Node>, lo: int, hi: int)
        requires
            self.wf(nodes, lo, hi),
        ensures
            self.leaf_map(nodes).dom().finite(),
            self.leaf_map(nodes).dom().contains(self.first_leaf_begin(nodes)),
            self.leaf_map(nodes).dom() != Set::<u64>::empty(),
            forall|k: u64| #[trigger]
                self.leaf_map(nodes).dom().contains(k) ==> lo <= k
                    <= self.leaf_map(nodes)[k].cursor <= self.leaf_map(nodes)[k].end <= hi && (
                k < hi || lo == hi),
        decreases self,
    {
        match self {
            Shape::Leaf { idx } => {
                let l = nodes[idx]->Leaf_0;
                assert(self.leaf_map(nodes).dom() =~= Set::empty().insert(l.extent.begin));
                assert(Set::<u64>::empty().insert(l.extent.begin).finite());
            },
            Shape::Fork { idx, left, right } => {
                let cut = nodes[idx]->Internal_0.cut;
                left.lemma_dom_props(nodes, lo, cut as int);
                right.lemma_dom_props(nodes, cut as int, hi);
                let b = left.first_leaf_begin(nodes);
                assert(self.leaf_map(nodes).dom() =~= left.leaf_map(nodes).dom().union(
                    right.leaf_map(nodes).dom(),
                ));
                assert(self.leaf_map(nodes).dom().contains(b));
            },
        }
    }

    /// The extents of distinct live leaves are pairwise disjoint: the earlier
    /// one ends at or before the later one begins.
    pub proof fn lemma_dom_disjoint(self, nodes: Seq<Node>, lo: int, hi: int)
        requires
            self.wf(nodes, lo, hi),
        ensures
            forall|k1: u64, k2: u64|
                #![trigger self.leaf_map(nodes).dom().contains(k1), self.leaf_map(nodes).dom().contains(k2)]
                self.leaf_map(nodes).dom().contains(k1) && self.leaf_map(nodes).dom().contains(k2)
                    && k1 < k2 ==> self.leaf_map(nodes)[k1].end <= k2,
        decreases self,
    {
        match self {
            Shape::Leaf { idx } => {},
            Shape::Fork { idx, left, right } => {
                let cut = nodes[idx]->Internal_0.cut;
                left.lemma_dom_disjoint(nodes, lo, cut as int);
                right.lemma_dom_disjoint(nodes, cut as int, hi);
                left.lemma_dom_props(nodes, lo, cut as int);
                right.lemma_dom_props(nodes, cut as int, hi);
                let lm = left.leaf_map(nodes);
                let rm = right.leaf_map(nodes);
                assert forall|k1: u64, k2: u64|
                    #![trigger self.leaf_map(nodes).dom().contains(k1), self.leaf_map(nodes).dom().contains(k2)]
                    self.leaf_map(nodes).dom().contains(k1) && self.leaf_map(nodes).dom().contains(
                        k2,
                    ) && k1 < k2 implies self.leaf_map(nodes)[k1].end <= k2 by {
                    if lm.dom().contains(k1) && rm.dom().contains(k2) {
                        assert(!rm.dom().contains(k1));
                        assert(self.leaf_map(nodes)[k1] == lm[k1]);
                        assert(lm[k1].end <= cut <= k2);
                    }
                }
            },
        }
    }

    /// The two halves of a fork never describe a leaf with the same `begin`.
    pub proof fn lemma_fork_doms_disjoint(self, nodes: Seq<Node>, lo: int, hi: int)
        requires
            self.wf(nodes, lo, hi),
            self is Fork,
        ensures
            self->Fork_left.leaf_map(nodes).dom().disjoint(
                self->Fork_right.leaf_map(nodes).dom(),
            ),
    {
        let cut = nodes[self.idx()]->Internal_0.cut;
        let left = *self->Fork_left;
        let right = *self->Fork_right;
        left.lemma_dom_props(nodes, lo, cut as int);
        right.lemma_dom_props(nodes, cut as int, hi);
    }

    /// A subtree's root holds at least as many holders as any one of its leaves.
    pub proof fn lemma_holders_lower(self, nodes: Seq<Node>, lo: int, hi: int, b: u64)
        requires
            self.wf(nodes, lo, hi),
            self.leaf_map(nodes).dom().contains(b),
        ensures
            self.holders(nodes) >= self.leaf_map(nodes)[b].holders,
            self.holders(nodes) >= 0,
        decreases self,
    {
        match self {
            Shape::Leaf { idx } => {},
            Shape::Fork { idx, left, right } => {
                let cut = nodes[idx]->Internal_0.cut;
                if right.leaf_map(nodes).dom().contains(b) {
                    right.lemma_holders_lower(nodes, cut as int, hi, b);
                    left.lemma_holders_nonneg(nodes, lo, cut as int);
                } else {
                    left.lemma_holders_lower(nodes, lo, cut as int, b);
                    right.lemma_holders_nonneg(nodes, cut as int, hi);
                }
            },
        }
    }

    pub proof fn lemma_holders_nonneg(self, nodes: Seq<Node>, lo: int, hi: int)
        requires
            self.wf(nodes, lo, hi),
        ensures
            self.holders(nodes) >= 0,
    {
    }

    /// Every slot a well-formed subtree occupies is in bounds.
    pub proof fn lemma_node_set_bounds(self, nodes: Seq<Node>, lo: int, hi: int)
        requires
            self.wf(nodes, lo, hi),
        ensures
            forall|i: int| self.node_set().contains(i) ==> 0 <= i < nodes.len(),
            self.node_set().contains(self.idx()),
        decreases self,
    {
        match self {
            Shape::Leaf { idx } => {},
            Shape::Fork { idx, left, right } => {
                let cut = nodes[idx]->Internal_0.cut;
                left.lemma_node_set_bounds(nodes, lo, cut as int);
                right.lemma_node_set_bounds(nodes, cut as int, hi);
            },
        }
    }

    /// The holder count of every internal node of a well-formed subtree is
    /// the sum of its children's.
    pub proof fn lemma_internal_sums(self, nodes: Seq<Node>, lo: int, hi: int)
        requires
            self.wf(nodes, lo, hi),
        ensures
            forall|i: int| #[trigger]
                self.node_set().contains(i) ==> 0 <= i < nodes.len() && match nodes[i] {
                    Node::Internal(n) => self.node_set().contains(n.left as int)
                        && self.node_set().contains(n.right as int) && n.holders == nodes[
                        n.left as int
                    ].spec_holders() + nodes[n.right as int].spec_holders(),
                    Node::Leaf(_) => true,
                },
        decreases self,
    {
        match self {
            Shape::Leaf { idx } => {},
            Shape::Fork { idx, left, right } => {
                let cut = nodes[idx]->Internal_0.cut;
                left.lemma_internal_sums(nodes, lo, cut as int);
                right.lemma_internal_sums(nodes, cut as int, hi);
                left.lemma_node_set_bounds(nodes, lo, cut as int);
                right.lemma_node_set_bounds(nodes, cut as int, hi);
            },
        }
    }
}

} // verus!
