//! The binary-space-partition tree over the block address space.
//!
//! Nodes live in a fixed pool and refer to each other by small indices, with
//! [`NULL_NODE`] marking absence.  Leaves carry an extent — a half-open block
//! range with a monotone cursor — and a count of outstanding borrows; internal
//! nodes carry the `cut` point that separates their children, a holder count,
//! and a free-block hint.  All mutation happens through `&mut self` methods;
//! callers that share the tree are expected to serialize access around it.

use vstd::prelude::*;

use crate::shape::{LeafInfo, Shape};

verus! {

/// Sentinel index: "no node".
pub const NULL_NODE: u8 = 255;

/// A leaf whose free capacity is at most this many blocks is never split.
pub const MIN_SPLIT: u64 = 16;

/// A half-open run of blocks `[begin, end)` with a progress cursor in
/// `[begin, end]`.  Free capacity is `end - cursor`.
#[derive(Clone, Copy, Debug)]
pub struct Extent {
    pub begin: u64,
    pub end: u64,
    pub cursor: u64,
}

/// An internal node: `cut` strictly separates the children's block ranges.
#[derive(Clone, Copy, Debug)]
pub struct Internal {
    pub holders: usize,
    pub nr_free_blocks: u64,
    pub cut: u64,
    pub left: u8,
    pub right: u8,
}

/// A leaf node: an extent and the number of outstanding borrows of it.
#[derive(Clone, Copy, Debug)]
pub struct Leaf {
    pub extent: Extent,
    pub holders: usize,
}

#[derive(Clone, Copy, Debug)]
pub enum Node {
    Internal(Internal),
    Leaf(Leaf),
}

/// Whether the leaf keyed by `k` still covers block `x`: `x` lies at or
/// after its cursor and before its end.
pub open spec fn leaf_covers(m: Map<u64, LeafInfo>, k: u64, x: u64) -> bool {
    m.dom().contains(k) && m[k].cursor <= x < m[k].end
}

/// Whether the leaf in slot `idx` may be split: at least two free slots and
/// more than [`MIN_SPLIT`] free blocks.
pub open spec fn spec_can_split(nodes: Seq<Node>, free: Seq<u8>, idx: int) -> bool {
    match nodes[idx] {
        Node::Leaf(l) => free.len() >= 2 && l.extent.end - l.extent.cursor > MIN_SPLIT,
        Node::Internal(_) => false,
    }
}

/// The pool after splitting the leaf in slot `idx` at the midpoint of its
/// free capacity: the last two slots of the free list become the children
/// (left first), the left child keeps the original extent narrowed to the
/// midpoint together with its holders, the right child starts fresh at the
/// midpoint, and the original slot becomes an internal node cut there.
pub open spec fn spec_split(nodes: Seq<Node>, free: Seq<u8>, idx: int) -> (Seq<Node>, Seq<u8>) {
    let l = nodes[idx]->Leaf_0;
    let mid = (l.extent.cursor + (l.extent.end - l.extent.cursor) / 2) as u64;
    let lc = free[free.len() - 1] as int;
    let rc = free[free.len() - 2] as int;
    let nodes2 = nodes.update(
        lc,
        Node::Leaf(
            Leaf {
                extent: Extent { begin: l.extent.begin, end: mid, cursor: l.extent.cursor },
                holders: l.holders,
            },
        ),
    ).update(
        rc,
        Node::Leaf(Leaf { extent: Extent { begin: mid, end: l.extent.end, cursor: mid }, holders: 0 }),
    ).update(
        idx,
        Node::Internal(
            Internal {
                holders: l.holders,
                nr_free_blocks: (l.extent.end - l.extent.cursor) as u64,
                cut: mid,
                left: lc as u8,
                right: rc as u8,
            },
        ),
    );
    (nodes2, free.take(free.len() - 2))
}

/// One borrow, played out over the raw pool: descend by score (ties to the
/// left), split a contended leaf when possible and retry there, otherwise
/// take or share the leaf reached, and increment every holder count on the
/// way back up.  `fuel` only bounds the recursion; any amount at least the
/// tree height plus the free-list length gives the same answer.
pub open spec fn spec_borrow(nodes: Seq<Node>, free: Seq<u8>, idx: int, fuel: nat) -> (
    Seq<Node>,
    Seq<u8>,
    u64,
)
    decreases fuel,
{
    if fuel == 0 {
        (nodes, free, 0)
    } else {
        match nodes[idx] {
            Node::Internal(n) => {
                let child = if nodes[n.left as int].spec_score() >= nodes[
                    n.right as int
                ].spec_score() {
                    n.left
                } else {
                    n.right
                };
                let step = spec_borrow(nodes, free, child as int, (fuel - 1) as nat);
                (
                    step.0.update(
                        idx,
                        Node::Internal(
                            Internal {
                                holders: (n.holders + 1) as usize,
                                nr_free_blocks: n.nr_free_blocks,
                                cut: n.cut,
                                left: n.left,
                                right: n.right,
                            },
                        ),
                    ),
                    step.1,
                    step.2,
                )
            },
            Node::Leaf(l) => {
                if l.holders > 0 && spec_can_split(nodes, free, idx) {
                    let split = spec_split(nodes, free, idx);
                    spec_borrow(split.0, split.1, idx, (fuel - 1) as nat)
                } else {
                    (
                        nodes.update(
                            idx,
                            Node::Leaf(Leaf { extent: l.extent, holders: (l.holders + 1) as usize }),
                        ),
                        free,
                        l.extent.begin,
                    )
                }
            },
        }
    }
}

/// What a leaf's record becomes when one of its borrows is returned: the
/// leaf disappears once it is both drained (`cursor == end`) and no longer
/// held by anyone; otherwise only its holder count drops.
pub open spec fn release_result(m: Map<u64, LeafInfo>, b: u64) -> Map<u64, LeafInfo> {
    if m[b].cursor == m[b].end && m[b].holders == 1 {
        m.remove(b)
    } else {
        m.insert(
            b,
            LeafInfo { end: m[b].end, cursor: m[b].cursor, holders: (m[b].holders - 1) as nat },
        )
    }
}

/// A slot that belongs to a set the free list avoids cannot be on the free
/// list itself.
proof fn lemma_not_free(free: Seq<u8>, s: Set<int>, x: int)
    requires
        forall|i: int| 0 <= i < free.len() ==> !s.contains(#[trigger] free[i] as int),
        s.contains(x),
        0 <= x < 256,
    ensures
        !free.contains(x as u8),
{
    if free.contains(x as u8) {
        let j = choose|j: int| 0 <= j < free.len() && free[j] == x as u8;
        assert(!s.contains(free[j] as int));
    }
}

impl Node {
    pub open spec fn spec_holders(self) -> int {
        match self {
            Node::Internal(n) => n.holders as int,
            Node::Leaf(l) => l.holders as int,
        }
    }

    /// The free-block count this node advertises: exact for a leaf, a stored
    /// hint for an internal node.
    pub open spec fn spec_free_hint(self) -> int {
        match self {
            Node::Internal(n) => n.nr_free_blocks as int,
            Node::Leaf(l) => l.extent.end - l.extent.cursor,
        }
    }

    /// The borrow policy's score: free blocks per holder, counting the
    /// would-be new holder.  Borrows descend into the child with the higher
    /// score, so toward the larger and less crowded subtree.
    pub open spec fn spec_score(self) -> int {
        self.spec_free_hint() / (self.spec_holders() + 1)
    }

    /// A leaf's extent is ordered; internal nodes carry no extent.
    pub open spec fn extent_ok(self) -> bool {
        match self {
            Node::Internal(_) => true,
            Node::Leaf(l) => l.extent.begin <= l.extent.cursor <= l.extent.end,
        }
    }

    pub fn nr_holders(&self) -> (r: usize)
        ensures
            r == self.spec_holders(),
    {
        match self {
            Node::Internal(n) => n.holders,
            Node::Leaf(l) => l.holders,
        }
    }

    pub fn nr_free_blocks(&self) -> (r: u64)
        requires
            self.extent_ok(),
        ensures
            r == self.spec_free_hint(),
    {
        match self {
            Node::Internal(n) => n.nr_free_blocks,
            Node::Leaf(l) => l.extent.end - l.extent.cursor,
        }
    }
}

/// The partition tree: a node pool, a free list of unused slots, and the
/// index of the root node (or [`NULL_NODE`] once every leaf has been pruned).
pub struct Tree {
    nr_blocks: u64,
    nodes: Vec<Node>,
    free_nodes: Vec<u8>,
    root: u8,
    shape: Ghost<Option<Shape>>,
}

impl Tree {
    /// The size of the block address space `[0, nr_blocks)`.
    pub closed spec fn spec_nr_blocks(&self) -> u64 {
        self.nr_blocks
    }

    /// The size of the node pool, fixed at construction.
    pub closed spec fn total_nodes(&self) -> nat {
        self.nodes@.len()
    }

    /// How many pool slots are on the free list.
    pub closed spec fn free_count(&self) -> nat {
        self.free_nodes@.len()
    }

    /// How many pool slots are reachable from the root.
    pub closed spec fn live_count(&self) -> nat {
        match self.shape@ {
            None => 0,
            Some(s) => s.count(),
        }
    }

    /// The pool slots reachable from the root.
    pub closed spec fn live_nodes(&self) -> Set<int> {
        match self.shape@ {
            None => Set::empty(),
            Some(s) => s.node_set(),
        }
    }

    /// The live leaves, keyed by their extents' `begin`.
    pub closed spec fn leaves(&self) -> Map<u64, LeafInfo> {
        match self.shape@ {
            None => Map::empty(),
            Some(s) => s.leaf_map(self.nodes@),
        }
    }

    /// The number of outstanding borrows over the whole tree.
    pub closed spec fn total_holders(&self) -> int {
        match self.shape@ {
            None => 0,
            Some(s) => s.holders(self.nodes@),
        }
    }

    /// The total free capacity over all live leaves.
    pub closed spec fn total_capacity(&self) -> int {
        match self.shape@ {
            None => 0,
            Some(s) => s.capacity(self.nodes@),
        }
    }

    /// The raw node pool, as [`Self::read_node`] sees it.
    pub closed spec fn spec_nodes(&self) -> Seq<Node> {
        self.nodes@
    }

    /// The free list; slots are taken from its end.
    pub closed spec fn spec_free_nodes(&self) -> Seq<u8> {
        self.free_nodes@
    }

    pub closed spec fn spec_root(&self) -> u8 {
        self.root
    }

    /// The tree invariant: the free list is duplicate-free, in bounds and
    /// disjoint from the live nodes; the live nodes form a well-formed
    /// partition of a subrange of `[0, nr_blocks)`; and every pool slot is
    /// accounted for exactly once (free or live).
    pub closed spec fn wf(&self) -> bool {
        &&& 1 <= self.nodes@.len() <= 255
        &&& forall|i: int|
            0 <= i < self.free_nodes@.len() ==> (#[trigger] self.free_nodes@[i] as int)
                < self.nodes@.len()
        &&& forall|i: int, j: int|
            0 <= i < j < self.free_nodes@.len() ==> self.free_nodes@[i] != self.free_nodes@[j]
        &&& match self.shape@ {
            None => self.root == NULL_NODE && self.free_nodes@.len() == self.nodes@.len(),
            Some(s) => {
                &&& self.root != NULL_NODE
                &&& s.idx() == self.root as int
                &&& s.wf(self.nodes@, 0, self.nr_blocks as int)
                &&& forall|i: int|
                    0 <= i < self.free_nodes@.len() ==> !s.node_set().contains(
                        #[trigger] self.free_nodes@[i] as int,
                    )
                &&& self.free_nodes@.len() + s.count() == self.nodes@.len()
            },
        }
    }

    /// Builds a tree over `[0, nr_blocks)` with a pool of `nr_nodes` slots and
    /// a single leaf covering the whole range.
    pub fn new(nr_blocks: u64, nr_nodes: u8) -> (tree: Tree)
        requires
            nr_nodes >= 1,
        ensures
            tree.wf(),
            tree.spec_nr_blocks() == nr_blocks,
            tree.total_nodes() == nr_nodes,
            tree.free_count() == nr_nodes - 1,
            tree.total_holders() == 0,
            tree.leaves() == map![0u64 => LeafInfo { end: nr_blocks, cursor: 0u64, holders: 0nat }],
            tree.spec_root() == nr_nodes - 1,
            tree.spec_free_nodes() == Seq::new((nr_nodes - 1) as nat, |i: int| i as u8),
            tree.spec_nodes() == Seq::new(
                nr_nodes as nat,
                |i: int|
                    Node::Internal(
                        Internal {
                            holders: 0,
                            nr_free_blocks: 0,
                            cut: 0,
                            left: NULL_NODE,
                            right: NULL_NODE,
                        },
                    ),
            ).update(
                nr_nodes - 1,
                Node::Leaf(Leaf { extent: Extent { begin: 0, end: nr_blocks, cursor: 0 }, holders: 0 }),
            ),
    {
        let mut nodes: Vec<Node> = Vec::new();
        let mut i: usize = 0;
        while i < nr_nodes as usize
            invariant
                i <= nr_nodes as usize,
                nodes@.len() == i,
                forall|j: int|
                    0 <= j < i ==> #[trigger] nodes@[j] == Node::Internal(
                        Internal {
                            holders: 0,
                            nr_free_blocks: 0,
                            cut: 0,
                            left: NULL_NODE,
                            right: NULL_NODE,
                        },
                    ),
            decreases nr_nodes as usize - i,
        {
            nodes.push(
                Node::Internal(
                    Internal {
                        holders: 0,
                        nr_free_blocks: 0,
                        cut: 0,
                        left: NULL_NODE,
                        right: NULL_NODE,
                    },
                ),
            );
            i += 1;
        }
        let mut tree = Tree {
            nr_blocks: 0,
            nodes,
            free_nodes: Vec::new(),
            root: NULL_NODE,
            shape: Ghost(None),
        };
        proof {
            assert(tree.nodes@ =~= Seq::new(
                nr_nodes as nat,
                |i: int|
                    Node::Internal(
                        Internal {
                            holders: 0,
                            nr_free_blocks: 0,
                            cut: 0,
                            left: NULL_NODE,
                            right: NULL_NODE,
                        },
                    ),
            ));
        }
        tree.rebuild(nr_blocks);
        tree
    }

    /// Discards the current partition and installs a fresh single-leaf root
    /// over `[0, nr_blocks)`.  Every node slot returns to the free list.
    fn rebuild(&mut self, nr_blocks: u64)
        requires
            1 <= old(self).nodes@.len() <= 255,
        ensures
            final(self).wf(),
            final(self).spec_nr_blocks() == nr_blocks,
            final(self).total_nodes() == old(self).nodes@.len(),
            final(self).free_count() == old(self).nodes@.len() - 1,
            final(self).total_holders() == 0,
            final(self).leaves() == map![0u64 => LeafInfo { end: nr_blocks, cursor: 0u64, holders: 0nat }],
            final(self).spec_root() == old(self).nodes@.len() - 1,
            final(self).spec_free_nodes() == Seq::new(
                (old(self).nodes@.len() - 1) as nat,
                |i: int| i as u8,
            ),
            final(self).spec_nodes() == old(self).nodes@.update(
                old(self).nodes@.len() - 1,
                Node::Leaf(Leaf { extent: Extent { begin: 0, end: nr_blocks, cursor: 0 }, holders: 0 }),
            ),
    {
        let n = self.nodes.len();
        self.free_nodes.clear();
        let mut i: usize = 0;
        while i < n
            invariant
                i <= n,
                n == self.nodes@.len(),
                n <= 255,
                self.nodes@ == old(self).nodes@,
                self.free_nodes@.len() == i,
                forall|j: int| 0 <= j < i ==> #[trigger] self.free_nodes@[j] == j as u8,
            decreases n - i,
        {
            self.free_nodes.push(i as u8);
            i += 1;
        }
        let root = self.free_nodes.pop().unwrap();
        assert(root == n - 1);
        proof {
            assert(self.free_nodes@ =~= Seq::new((n - 1) as nat, |i: int| i as u8));
        }
        self.nodes[root as usize] = Node::Leaf(
            Leaf { extent: Extent { begin: 0, end: nr_blocks, cursor: 0 }, holders: 0 },
        );
        self.root = root;
        self.nr_blocks = nr_blocks;
        self.shape = Ghost(Some(Shape::Leaf { idx: root as int }));
        proof {
            assert(self.leaves() =~= map![0u64 => LeafInfo { end: nr_blocks, cursor: 0u64, holders: 0nat }]);
            assert(self.nodes@ =~= old(self).nodes@.update(
                old(self).nodes@.len() - 1,
                Node::Leaf(
                    Leaf { extent: Extent { begin: 0, end: nr_blocks, cursor: 0 }, holders: 0 },
                ),
            ));
        }
    }

    /// Abandons the current partition: afterwards the tree is a single leaf
    /// over the unchanged address space and all other slots are free.
    pub fn reset(&mut self)
        requires
            old(self).wf(),
        ensures
            final(self).wf(),
            final(self).spec_nr_blocks() == old(self).spec_nr_blocks(),
            final(self).total_nodes() == old(self).total_nodes(),
            final(self).free_count() == old(self).total_nodes() - 1,
            final(self).total_holders() == 0,
            final(self).leaves() == map![0u64 => LeafInfo {
                end: old(self).spec_nr_blocks(),
                cursor: 0u64,
                holders: 0nat,
            }],
            final(self).spec_root() == old(self).total_nodes() - 1,
            final(self).spec_free_nodes() == Seq::new(
                (old(self).total_nodes() - 1) as nat,
                |i: int| i as u8,
            ),
            final(self).spec_nodes() == old(self).spec_nodes().update(
                old(self).total_nodes() - 1,
                Node::Leaf(
                    Leaf {
                        extent: Extent { begin: 0, end: old(self).spec_nr_blocks(), cursor: 0 },
                        holders: 0,
                    },
                ),
            ),
    {
        let nr_blocks = self.nr_blocks;
        self.rebuild(nr_blocks);
    }

    /// Like [`Self::reset`], but over a new address space `[0, nr_blocks)`.
    pub fn resize(&mut self, nr_blocks: u64)
        requires
            old(self).wf(),
        ensures
            final(self).wf(),
            final(self).spec_nr_blocks() == nr_blocks,
            final(self).total_nodes() == old(self).total_nodes(),
            final(self).free_count() == old(self).total_nodes() - 1,
            final(self).total_holders() == 0,
            final(self).leaves() == map![0u64 => LeafInfo { end: nr_blocks, cursor: 0u64, holders: 0nat }],
            final(self).spec_root() == old(self).total_nodes() - 1,
            final(self).spec_free_nodes() == Seq::new(
                (old(self).total_nodes() - 1) as nat,
                |i: int| i as u8,
            ),
            final(self).spec_nodes() == old(self).spec_nodes().update(
                old(self).total_nodes() - 1,
                Node::Leaf(
                    Leaf { extent: Extent { begin: 0, end: nr_blocks, cursor: 0 }, holders: 0 },
                ),
            ),
    {
        self.rebuild(nr_blocks);
    }

    /// A copy of the node in pool slot `node`.
    pub fn read_node(&self, node: u8) -> (r: Node)
        requires
            node < self.total_nodes(),
        ensures
            r == self.spec_nodes()[node as int],
    {
        self.nodes[node as usize]
    }

    /// The index of the root node, or [`NULL_NODE`] once the tree is empty.
    pub fn root(&self) -> (r: u8)
        requires
            self.wf(),
        ensures
            r == self.spec_root(),
            (r == NULL_NODE) <==> self.leaves().dom() == Set::<u64>::empty(),
    {
        proof {
            if let Some(s) = self.shape@ {
                s.lemma_dom_props(self.nodes@, 0, self.nr_blocks as int);
            }
        }
        self.root
    }

    /// How many pool slots are currently free.
    pub fn nr_free_nodes(&self) -> (r: usize)
        ensures
            r == self.free_count(),
    {
        self.free_nodes.len()
    }

    /// The size of the block address space.
    pub fn nr_blocks(&self) -> (r: u64)
        ensures
            r == self.spec_nr_blocks(),
    {
        self.nr_blocks
    }

    /// The pool size chosen at construction.
    pub fn nr_nodes(&self) -> (r: usize)
        ensures
            r == self.total_nodes(),
    {
        self.nodes.len()
    }

    /// Reads the current extent of the live leaf whose `begin` is given.
    pub fn read_extent(&self, begin: u64) -> (e: Extent)
        requires
            self.wf(),
            self.leaves().dom().contains(begin),
        ensures
            e.begin == begin,
            e.cursor == self.leaves()[begin].cursor,
            e.end == self.leaves()[begin].end,
    {
        let ghost s = self.shape@->Some_0;
        self.find_leaf(begin, self.root, Ghost(s), Ghost(0), Ghost(self.nr_blocks as int))
    }

    fn find_leaf(&self, begin: u64, idx: u8, shape: Ghost<Shape>, lo: Ghost<int>, hi: Ghost<int>) -> (e: Extent)
        requires
            shape@.wf(self.nodes@, lo@, hi@),
            idx == shape@.idx(),
            shape@.leaf_map(self.nodes@).dom().contains(begin),
        ensures
            e.begin == begin,
            e.cursor == shape@.leaf_map(self.nodes@)[begin].cursor,
            e.end == shape@.leaf_map(self.nodes@)[begin].end,
        decreases shape@.height(),
    {
        let node = self.nodes[idx as usize];
        match node {
            Node::Leaf(l) => l.extent,
            Node::Internal(n) => {
                let ghost left = *shape@->Fork_left;
                let ghost right = *shape@->Fork_right;
                proof {
                    left.lemma_dom_props(self.nodes@, lo@, n.cut as int);
                    right.lemma_dom_props(self.nodes@, n.cut as int, hi@);
                }
                if begin < n.cut {
                    self.find_leaf(begin, n.left, Ghost(left), lo, Ghost(n.cut as int))
                } else {
                    self.find_leaf(begin, n.right, Ghost(right), Ghost(n.cut as int), hi)
                }
            },
        }
    }

    /// Advances the cursor of the live leaf keyed by `begin` to `cursor`.
    /// The cursor only ever moves forward, up to the extent's `end`.
    pub fn advance_cursor(&mut self, begin: u64, cursor: u64)
        requires
            old(self).wf(),
            old(self).leaves().dom().contains(begin),
            old(self).leaves()[begin].cursor <= cursor <= old(self).leaves()[begin].end,
        ensures
            final(self).wf(),
            final(self).spec_nr_blocks() == old(self).spec_nr_blocks(),
            final(self).total_nodes() == old(self).total_nodes(),
            final(self).free_count() == old(self).free_count(),
            final(self).live_count() == old(self).live_count(),
            final(self).total_holders() == old(self).total_holders(),
            final(self).total_capacity() == old(self).total_capacity() - (cursor - old(
                self,
            ).leaves()[begin].cursor),
            final(self).leaves() == old(self).leaves().insert(
                begin,
                LeafInfo {
                    end: old(self).leaves()[begin].end,
                    cursor,
                    holders: old(self).leaves()[begin].holders,
                },
            ),
    {
        let ghost s = self.shape@->Some_0;
        let root = self.root;
        self.set_cursor_at(begin, cursor, root, Ghost(s), Ghost(0), Ghost(self.nr_blocks as int));
    }

    fn set_cursor_at(
        &mut self,
        begin: u64,
        cursor: u64,
        idx: u8,
        shape: Ghost<Shape>,
        lo: Ghost<int>,
        hi: Ghost<int>,
    )
        requires
            shape@.wf(old(self).nodes@, lo@, hi@),
            idx == shape@.idx(),
            shape@.leaf_map(old(self).nodes@).dom().contains(begin),
            shape@.leaf_map(old(self).nodes@)[begin].cursor <= cursor <= shape@.leaf_map(
                old(self).nodes@,
            )[begin].end,
        ensures
            final(self).nodes@.len() == old(self).nodes@.len(),
            final(self).free_nodes == old(self).free_nodes,
            final(self).root == old(self).root,
            final(self).nr_blocks == old(self).nr_blocks,
            final(self).shape == old(self).shape,
            forall|i: int|
                0 <= i < old(self).nodes@.len() && !shape@.node_set().contains(i)
                    ==> final(self).nodes@[i] == old(self).nodes@[i],
            shape@.wf(final(self).nodes@, lo@, hi@),
            shape@.holders(final(self).nodes@) == shape@.holders(old(self).nodes@),
            shape@.capacity(final(self).nodes@) == shape@.capacity(old(self).nodes@) - (cursor
                - shape@.leaf_map(old(self).nodes@)[begin].cursor),
            shape@.leaf_map(final(self).nodes@) == shape@.leaf_map(old(self).nodes@).insert(
                begin,
                LeafInfo {
                    end: shape@.leaf_map(old(self).nodes@)[begin].end,
                    cursor,
                    holders: shape@.leaf_map(old(self).nodes@)[begin].holders,
                },
            ),
        decreases shape@.height(),
    {
        let node = self.nodes[idx as usize];
        match node {
            Node::Leaf(l) => {
                self.nodes[idx as usize] = Node::Leaf(
                    Leaf {
                        extent: Extent { begin: l.extent.begin, end: l.extent.end, cursor },
                        holders: l.holders,
                    },
                );
                proof {
                    assert(shape@.leaf_map(self.nodes@) =~= shape@.leaf_map(
                        old(self).nodes@,
                    ).insert(
                        begin,
                        LeafInfo {
                            end: shape@.leaf_map(old(self).nodes@)[begin].end,
                            cursor,
                            holders: shape@.leaf_map(old(self).nodes@)[begin].holders,
                        },
                    ));
                }
            },
            Node::Internal(n) => {
                let ghost left = *shape@->Fork_left;
                let ghost right = *shape@->Fork_right;
                proof {
                    left.lemma_dom_props(old(self).nodes@, lo@, n.cut as int);
                    right.lemma_dom_props(old(self).nodes@, n.cut as int, hi@);
                    left.lemma_node_set_bounds(old(self).nodes@, lo@, n.cut as int);
                    right.lemma_node_set_bounds(old(self).nodes@, n.cut as int, hi@);
                    shape@.lemma_fork_doms_disjoint(old(self).nodes@, lo@, hi@);
                }
                if begin < n.cut {
                    self.set_cursor_at(begin, cursor, n.left, Ghost(left), lo, Ghost(n.cut as int));
                    proof {
                        right.lemma_frame(old(self).nodes@, self.nodes@, n.cut as int, hi@);
                        assert(shape@.leaf_map(self.nodes@) =~= shape@.leaf_map(
                            old(self).nodes@,
                        ).insert(
                            begin,
                            LeafInfo {
                                end: shape@.leaf_map(old(self).nodes@)[begin].end,
                                cursor,
                                holders: shape@.leaf_map(old(self).nodes@)[begin].holders,
                            },
                        ));
                    }
                } else {
                    self.set_cursor_at(
                        begin,
                        cursor,
                        n.right,
                        Ghost(right),
                        Ghost(n.cut as int),
                        hi,
                    );
                    proof {
                        left.lemma_frame(old(self).nodes@, self.nodes@, lo@, n.cut as int);
                        assert(shape@.leaf_map(self.nodes@) =~= shape@.leaf_map(
                            old(self).nodes@,
                        ).insert(
                            begin,
                            LeafInfo {
                                end: shape@.leaf_map(old(self).nodes@)[begin].end,
                                cursor,
                                holders: shape@.leaf_map(old(self).nodes@)[begin].holders,
                            },
                        ));
                    }
                }
            },
        }
    }

    /// Pool conservation: the free slots and the slots reachable from the
    /// root together account for the whole pool, each exactly once.
    pub proof fn lemma_pool_conservation(&self)
        requires
            self.wf(),
        ensures
            self.free_count() + self.live_count() == self.total_nodes(),
    {
    }

    /// Every live leaf's record is ordered and lies within the address space:
    /// `begin <= cursor <= end <= nr_blocks`.
    pub proof fn lemma_leaves_wf(&self)
        requires
            self.wf(),
        ensures
            forall|k: u64| #[trigger]
                self.leaves().dom().contains(k) ==> k <= self.leaves()[k].cursor
                    <= self.leaves()[k].end <= self.spec_nr_blocks(),
    {
        if let Some(s) = self.shape@ {
            s.lemma_dom_props(self.nodes@, 0, self.nr_blocks as int);
        }
    }

    /// Live extents are pairwise disjoint: of two live leaves, the one with
    /// the smaller `begin` ends at or before the other begins.
    pub proof fn lemma_leaves_disjoint(&self)
        requires
            self.wf(),
        ensures
            forall|k1: u64, k2: u64|
                #![trigger self.leaves().dom().contains(k1), self.leaves().dom().contains(k2)]
                self.leaves().dom().contains(k1) && self.leaves().dom().contains(k2) && k1 < k2
                    ==> self.leaves()[k1].end <= k2,
    {
        if let Some(s) = self.shape@ {
            s.lemma_dom_disjoint(self.nodes@, 0, self.nr_blocks as int);
        }
    }

    /// Free capacity never goes negative.
    pub proof fn lemma_capacity_nonneg(&self)
        requires
            self.wf(),
        ensures
            self.total_capacity() >= 0,
    {
        if let Some(s) = self.shape@ {
            s.lemma_capacity_nonneg(self.nodes@, 0, self.nr_blocks as int);
        }
    }

    /// Holder accounting inside the tree: every live internal node's holder
    /// count is the sum of its children's, and its children are live.
    pub proof fn lemma_holders_sum(&self)
        requires
            self.wf(),
        ensures
            forall|i: int| #[trigger]
                self.live_nodes().contains(i) ==> 0 <= i < self.total_nodes() && match self.spec_nodes()[i] {
                    Node::Internal(n) => self.live_nodes().contains(n.left as int)
                        && self.live_nodes().contains(n.right as int) && n.holders
                        == self.spec_nodes()[n.left as int].spec_holders() + self.spec_nodes()[
                        n.right as int
                    ].spec_holders(),
                    Node::Leaf(_) => true,
                },
    {
        if let Some(s) = self.shape@ {
            s.lemma_internal_sums(self.nodes@, 0, self.nr_blocks as int);
        }
    }

    /// The free list holds only in-bounds slots, each at most once.
    spec fn free_ok(&self) -> bool {
        &&& forall|i: int|
            0 <= i < self.free_nodes@.len() ==> (#[trigger] self.free_nodes@[i] as int)
                < self.nodes@.len()
        &&& forall|i: int, j: int|
            0 <= i < j < self.free_nodes@.len() ==> self.free_nodes@[i] != self.free_nodes@[j]
    }

    /// No slot of `s` is on the free list.
    spec fn free_disjoint(&self, s: Set<int>) -> bool {
        forall|i: int|
            0 <= i < self.free_nodes@.len() ==> !s.contains(#[trigger] self.free_nodes@[i] as int)
    }

    /// The free-block count the node in slot `idx` advertises.
    fn free_hint(&self, idx: u8, shape: Ghost<Shape>, lo: Ghost<int>, hi: Ghost<int>) -> (r: u64)
        requires
            shape@.wf(self.nodes@, lo@, hi@),
            idx == shape@.idx(),
        ensures
            r == self.nodes@[idx as int].spec_free_hint(),
            r <= hi@ - lo@,
    {
        let node = self.nodes[idx as usize];
        node.nr_free_blocks()
    }

    /// Picks the child with the better score; ties go to the left.
    fn select_child(
        &self,
        left_idx: u8,
        right_idx: u8,
        lshape: Ghost<Shape>,
        rshape: Ghost<Shape>,
        lo: Ghost<int>,
        cut: Ghost<int>,
        hi: Ghost<int>,
    ) -> (r: u8)
        requires
            lshape@.wf(self.nodes@, lo@, cut@),
            rshape@.wf(self.nodes@, cut@, hi@),
            left_idx == lshape@.idx(),
            right_idx == rshape@.idx(),
            self.nodes@[left_idx as int].spec_holders() < usize::MAX,
            self.nodes@[right_idx as int].spec_holders() < usize::MAX,
        ensures
            r == if self.nodes@[left_idx as int].spec_score() >= self.nodes@[
                right_idx as int
            ].spec_score() {
                left_idx
            } else {
                right_idx
            },
    {
        let left_node = self.nodes[left_idx as usize];
        let right_node = self.nodes[right_idx as usize];

        let left_holders = left_node.nr_holders();
        let left_free = self.free_hint(left_idx, lshape, lo, cut);
        let left_score = left_free / ((left_holders + 1) as u64);

        let right_holders = right_node.nr_holders();
        let right_free = self.free_hint(right_idx, rshape, cut, hi);
        let right_score = right_free / ((right_holders + 1) as u64);

        if left_score >= right_score {
            left_idx
        } else {
            right_idx
        }
    }

    /// Splits the leaf in slot `idx` at the midpoint of its free capacity.
    /// The left child keeps the original extent, narrowed in place, together
    /// with the existing borrowers; the right child starts fresh.  Fails —
    /// changing nothing — when fewer than two slots are free or the leaf's
    /// capacity is at most [`MIN_SPLIT`] blocks.
    fn split_leaf(&mut self, idx: u8, shape: Ghost<Shape>, lo: Ghost<int>, hi: Ghost<int>) -> (res:
        (bool, Ghost<Shape>))
        requires
            old(self).free_ok(),
            old(self).nodes@.len() <= 255,
            shape@ is Leaf,
            shape@.wf(old(self).nodes@, lo@, hi@),
            idx == shape@.idx(),
            old(self).free_disjoint(shape@.node_set()),
        ensures
            final(self).nodes@.len() == old(self).nodes@.len(),
            final(self).root == old(self).root,
            final(self).nr_blocks == old(self).nr_blocks,
            final(self).shape == old(self).shape,
            final(self).free_ok(),
            res.0 == (old(self).free_nodes@.len() >= 2 && old(self).nodes@[idx as int]->Leaf_0.extent.end
                - old(self).nodes@[idx as int]->Leaf_0.extent.cursor > MIN_SPLIT),
            !res.0 ==> final(self).nodes@ == old(self).nodes@
                && final(self).free_nodes@ == old(self).free_nodes@ && res.1@ == shape@,
            res.0 ==> ({
                let l = old(self).nodes@[idx as int]->Leaf_0;
                let mid = (l.extent.cursor + (l.extent.end - l.extent.cursor) / 2) as u64;
                let flen = old(self).free_nodes@.len() as int;
                &&& final(self).free_nodes@ == old(self).free_nodes@.take(flen - 2)
                &&& res.1@.wf(final(self).nodes@, lo@, hi@)
                &&& res.1@ is Fork
                &&& res.1@.height() == 2
                &&& res.1@.idx() == idx
                &&& res.1@.count() == shape@.count() + 2
                &&& res.1@.holders(final(self).nodes@) == l.holders
                &&& res.1@.capacity(final(self).nodes@) == l.extent.end - l.extent.cursor
                &&& final(self).free_disjoint(res.1@.node_set())
                &&& (forall|x: int|
                    res.1@.node_set().contains(x) ==> x == idx as int || x == old(
                        self,
                    ).free_nodes@[flen - 1] as int || x == old(self).free_nodes@[flen - 2] as int)
                &&& (forall|i: int|
                    0 <= i < old(self).nodes@.len() && !res.1@.node_set().contains(i)
                        ==> final(self).nodes@[i] == old(self).nodes@[i])
                &&& res.1@.leaf_map(final(self).nodes@) == shape@.leaf_map(old(self).nodes@).insert(
                    l.extent.begin,
                    LeafInfo { end: mid, cursor: l.extent.cursor, holders: l.holders as nat },
                ).insert(mid, LeafInfo { end: l.extent.end, cursor: mid, holders: 0nat })
                &&& final(self).nodes@ == spec_split(old(self).nodes@, old(self).free_nodes@, idx as int).0
                &&& final(self).free_nodes@ == spec_split(old(self).nodes@, old(self).free_nodes@, idx as int).1
            }),
    {
        if self.free_nodes.len() < 2 {
            return (false, shape);
        }
        let node = self.nodes[idx as usize];
        match node {
            Node::Internal(_) => {
                proof {
                    assert(false);
                }
                (false, shape)
            },
            Node::Leaf(leaf) => {
                if leaf.extent.end - leaf.extent.cursor <= MIN_SPLIT {
                    // Too small to split.
                    return (false, shape);
                }
                let mid = leaf.extent.cursor + (leaf.extent.end - leaf.extent.cursor) / 2;

                let left_child = self.free_nodes.pop().unwrap();
                let right_child = self.free_nodes.pop().unwrap();

                // The existing borrowers stay on the left child, which keeps
                // the original extent with its end narrowed to `mid`.
                self.nodes[left_child as usize] = Node::Leaf(
                    Leaf {
                        extent: Extent {
                            begin: leaf.extent.begin,
                            end: mid,
                            cursor: leaf.extent.cursor,
                        },
                        holders: leaf.holders,
                    },
                );
                self.nodes[right_child as usize] = Node::Leaf(
                    Leaf {
                        extent: Extent { begin: mid, end: leaf.extent.end, cursor: mid },
                        holders: 0,
                    },
                );
                self.nodes[idx as usize] = Node::Internal(
                    Internal {
                        holders: leaf.holders,
                        nr_free_blocks: leaf.extent.end - leaf.extent.cursor,
                        cut: mid,
                        left: left_child,
                        right: right_child,
                    },
                );
                let ghost fork = Shape::Fork {
                    idx: idx as int,
                    left: Box::new(Shape::Leaf { idx: left_child as int }),
                    right: Box::new(Shape::Leaf { idx: right_child as int }),
                };
                proof {
                    let flen = old(self).free_nodes@.len() as int;
                    assert(old(self).free_nodes@[flen - 1] != old(self).free_nodes@[flen - 2]);
                    assert(self.free_nodes@ =~= old(self).free_nodes@.take(flen - 2));
                    let ls = Shape::Leaf { idx: left_child as int };
                    let rs = Shape::Leaf { idx: right_child as int };
                    assert(ls.node_set() == set![left_child as int]);
                    assert(rs.node_set() == set![right_child as int]);
                    assert(ls.wf(self.nodes@, lo@, mid as int));
                    assert(rs.wf(self.nodes@, mid as int, hi@));
                    assert(ls.leaf_map(self.nodes@) == map![
                        leaf.extent.begin => LeafInfo {
                            end: mid,
                            cursor: leaf.extent.cursor,
                            holders: leaf.holders as nat,
                        }
                    ]);
                    assert(rs.leaf_map(self.nodes@) == map![
                        mid => LeafInfo { end: leaf.extent.end, cursor: mid, holders: 0nat }
                    ]);
                    assert(ls.count() == 1 && rs.count() == 1);
                    assert(ls.height() == 1 && rs.height() == 1);
                    assert(ls.capacity(self.nodes@) == mid - leaf.extent.cursor);
                    assert(rs.capacity(self.nodes@) == leaf.extent.end - mid);
                    assert(fork.node_set() =~= set![left_child as int, right_child as int].insert(
                        idx as int,
                    ));
                    assert(fork.leaf_map(self.nodes@) =~= shape@.leaf_map(old(self).nodes@).insert(
                        leaf.extent.begin,
                        LeafInfo {
                            end: mid,
                            cursor: leaf.extent.cursor,
                            holders: leaf.holders as nat,
                        },
                    ).insert(
                        mid,
                        LeafInfo { end: leaf.extent.end, cursor: mid, holders: 0nat },
                    ));
                    assert(self.nodes@ =~= spec_split(
                        old(self).nodes@,
                        old(self).free_nodes@,
                        idx as int,
                    ).0);
                    assert(self.free_nodes@ =~= spec_split(
                        old(self).nodes@,
                        old(self).free_nodes@,
                        idx as int,
                    ).1);
                }
                (true, Ghost(fork))
            },
        }
    }

    /// The borrow descent.  Returns the `begin` of the leaf whose extent was
    /// borrowed, together with the subtree's new shape, and increments the
    /// holder count of every node on the path to it.
    #[verifier::rlimit(100)]
    #[verifier::spinoff_prover]
    fn borrow_at(&mut self, idx: u8, shape: Ghost<Shape>, lo: Ghost<int>, hi: Ghost<int>) -> (res:
        (u64, Ghost<Shape>))
        requires
            old(self).free_ok(),
            old(self).nodes@.len() <= 255,
            shape@.wf(old(self).nodes@, lo@, hi@),
            idx == shape@.idx(),
            old(self).free_disjoint(shape@.node_set()),
            old(self).nodes@[idx as int].spec_holders() < usize::MAX,
        ensures
            final(self).nodes@.len() == old(self).nodes@.len(),
            final(self).root == old(self).root,
            final(self).nr_blocks == old(self).nr_blocks,
            final(self).shape == old(self).shape,
            final(self).free_ok(),
            final(self).free_nodes@.len() <= old(self).free_nodes@.len(),
            final(self).free_nodes@ == old(self).free_nodes@.take(
                final(self).free_nodes@.len() as int,
            ),
            res.1@.wf(final(self).nodes@, lo@, hi@),
            res.1@.idx() == idx,
            final(self).free_disjoint(res.1@.node_set()),
            forall|x: int| shape@.node_set().contains(x) ==> res.1@.node_set().contains(x),
            forall|x: int|
                res.1@.node_set().contains(x) ==> shape@.node_set().contains(x) || old(
                    self,
                ).free_nodes@.contains(x as u8),
            res.1@.count() + final(self).free_nodes@.len() == shape@.count() + old(
                self,
            ).free_nodes@.len(),
            forall|i: int|
                0 <= i < old(self).nodes@.len() && !res.1@.node_set().contains(i)
                    ==> final(self).nodes@[i] == old(self).nodes@[i],
            res.1@.holders(final(self).nodes@) == shape@.holders(old(self).nodes@) + 1,
            res.1@.capacity(final(self).nodes@) == shape@.capacity(old(self).nodes@),
            forall|fuel: nat|
                fuel >= shape@.height() + old(self).free_nodes@.len() ==> #[trigger] spec_borrow(
                    old(self).nodes@,
                    old(self).free_nodes@,
                    idx as int,
                    fuel,
                ) == (final(self).nodes@, final(self).free_nodes@, res.0),
            forall|k: u64, x: u64|
                #[trigger] leaf_covers(shape@.leaf_map(old(self).nodes@), k, x) ==> exists|k2: u64|
                    #[trigger] leaf_covers(res.1@.leaf_map(final(self).nodes@), k2, x),
            (forall|k: u64| #[trigger]
                shape@.leaf_map(old(self).nodes@).dom().contains(k) ==> shape@.leaf_map(
                    old(self).nodes@,
                )[k].cursor < shape@.leaf_map(old(self).nodes@)[k].end) ==> (forall|k: u64|
                #[trigger] res.1@.leaf_map(final(self).nodes@).dom().contains(k)
                    ==> res.1@.leaf_map(final(self).nodes@)[k].cursor < res.1@.leaf_map(
                    final(self).nodes@,
                )[k].end),
            res.1@.leaf_map(final(self).nodes@)[res.0].cursor == res.1@.leaf_map(
                final(self).nodes@,
            )[res.0].end ==> final(self).free_nodes@.len() == old(self).free_nodes@.len(),
            final(self).free_nodes@.len() == old(self).free_nodes@.len() ==> res.1@.leaf_map(
                final(self).nodes@,
            ).dom() == shape@.leaf_map(old(self).nodes@).dom(),
            res.1@.leaf_map(final(self).nodes@).dom().contains(res.0),
            forall|k: u64| #[trigger]
                shape@.leaf_map(old(self).nodes@).dom().contains(k) ==> res.1@.leaf_map(
                    final(self).nodes@,
                ).dom().contains(k) && res.1@.leaf_map(final(self).nodes@)[k].cursor
                    == shape@.leaf_map(old(self).nodes@)[k].cursor && res.1@.leaf_map(
                    final(self).nodes@,
                )[k].end <= shape@.leaf_map(old(self).nodes@)[k].end && res.1@.leaf_map(
                    final(self).nodes@,
                )[k].holders == shape@.leaf_map(old(self).nodes@)[k].holders + (
                if k == res.0 {
                    1nat
                } else {
                    0nat
                }),
            forall|k: u64| #[trigger]
                res.1@.leaf_map(final(self).nodes@).dom().contains(k) && !shape@.leaf_map(
                    old(self).nodes@,
                ).dom().contains(k) ==> res.1@.leaf_map(final(self).nodes@)[k].cursor == k
                    && res.1@.leaf_map(final(self).nodes@)[k].holders == (
                if k == res.0 {
                    1nat
                } else {
                    0nat
                }),
        decreases self.free_nodes@.len(), shape@.height(),
    {
        let node = self.nodes[idx as usize];
        match node {
            Node::Internal(n) => {
                let ghost left = *shape@->Fork_left;
                let ghost right = *shape@->Fork_right;
                proof {
                    left.lemma_node_set_bounds(old(self).nodes@, lo@, n.cut as int);
                    right.lemma_node_set_bounds(old(self).nodes@, n.cut as int, hi@);
                    left.lemma_holders_nonneg(old(self).nodes@, lo@, n.cut as int);
                    right.lemma_holders_nonneg(old(self).nodes@, n.cut as int, hi@);
                }
                let chosen = self.select_child(
                    n.left,
                    n.right,
                    Ghost(left),
                    Ghost(right),
                    lo,
                    Ghost(n.cut as int),
                    hi,
                );
                proof {
                    assert(shape@.node_set().contains(idx as int));
                    lemma_not_free(old(self).free_nodes@, shape@.node_set(), idx as int);
                    assert forall|i: int| left.node_set().contains(i) implies shape@.node_set().contains(
                        i,
                    ) by {}
                    assert forall|i: int| right.node_set().contains(i) implies shape@.node_set().contains(
                        i,
                    ) by {}
                }
                let b: u64;
                let ghost new_left: Shape;
                let ghost new_right: Shape;
                if chosen == n.left {
                    let r = self.borrow_at(n.left, Ghost(left), lo, Ghost(n.cut as int));
                    b = r.0;
                    proof {
                        new_left = r.1@;
                        new_right = right;
                        assert forall|i: int| right.node_set().contains(i) implies !new_left.node_set().contains(
                            i,
                        ) by {
                            lemma_not_free(old(self).free_nodes@, shape@.node_set(), i);
                        }
                        assert(!new_left.node_set().contains(idx as int));
                        right.lemma_frame(old(self).nodes@, self.nodes@, n.cut as int, hi@);
                    }
                } else {
                    proof {
                        assert(chosen == n.right);
                    }
                    let r = self.borrow_at(n.right, Ghost(right), Ghost(n.cut as int), hi);
                    b = r.0;
                    proof {
                        new_left = left;
                        new_right = r.1@;
                        assert forall|i: int| left.node_set().contains(i) implies !new_right.node_set().contains(
                            i,
                        ) by {
                            lemma_not_free(old(self).free_nodes@, shape@.node_set(), i);
                        }
                        assert(!new_right.node_set().contains(idx as int));
                        left.lemma_frame(old(self).nodes@, self.nodes@, lo@, n.cut as int);
                    }
                }
                let ghost mid_nodes = self.nodes@;
                self.nodes[idx as usize] = Node::Internal(
                    Internal {
                        holders: n.holders + 1,
                        nr_free_blocks: n.nr_free_blocks,
                        cut: n.cut,
                        left: n.left,
                        right: n.right,
                    },
                );
                let ghost fork = Shape::Fork {
                    idx: idx as int,
                    left: Box::new(new_left),
                    right: Box::new(new_right),
                };
                proof {
                    assert(self.nodes@ == mid_nodes.update(idx as int, self.nodes@[idx as int]));
                    assert(!new_left.node_set().contains(idx as int));
                    assert(!new_right.node_set().contains(idx as int));
                    new_left.lemma_node_set_bounds(mid_nodes, lo@, n.cut as int);
                    new_right.lemma_node_set_bounds(mid_nodes, n.cut as int, hi@);
                    new_left.lemma_frame(mid_nodes, self.nodes@, lo@, n.cut as int);
                    new_right.lemma_frame(mid_nodes, self.nodes@, n.cut as int, hi@);
                    new_left.lemma_dom_props(self.nodes@, lo@, n.cut as int);
                    new_right.lemma_dom_props(self.nodes@, n.cut as int, hi@);
                    left.lemma_dom_props(old(self).nodes@, lo@, n.cut as int);
                    right.lemma_dom_props(old(self).nodes@, n.cut as int, hi@);
                    assert(new_left.node_set().disjoint(new_right.node_set()));
                    assert(fork.wf(self.nodes@, lo@, hi@));
                    assert(fork.leaf_map(self.nodes@) == new_left.leaf_map(self.nodes@).union_prefer_right(
                        new_right.leaf_map(self.nodes@),
                    ));
                    assert(fork.node_set() =~= new_left.node_set().union(new_right.node_set()).insert(
                        idx as int,
                    ));
                    assert forall|k: u64| #[trigger]
                        shape@.leaf_map(old(self).nodes@).dom().contains(k) implies fork.leaf_map(
                        self.nodes@,
                    ).dom().contains(k) && fork.leaf_map(self.nodes@)[k].cursor == shape@.leaf_map(
                        old(self).nodes@,
                    )[k].cursor && fork.leaf_map(self.nodes@)[k].end <= shape@.leaf_map(
                        old(self).nodes@,
                    )[k].end && fork.leaf_map(self.nodes@)[k].holders == shape@.leaf_map(
                        old(self).nodes@,
                    )[k].holders + (if k == b {
                        1nat
                    } else {
                        0nat
                    }) by {
                        assert(shape@.leaf_map(old(self).nodes@) == left.leaf_map(
                            old(self).nodes@,
                        ).union_prefer_right(right.leaf_map(old(self).nodes@)));
                    }
                    // Positivity of every leaf survives the descent.
                    if forall|k: u64| #[trigger]
                        shape@.leaf_map(old(self).nodes@).dom().contains(k) ==> shape@.leaf_map(
                            old(self).nodes@,
                        )[k].cursor < shape@.leaf_map(old(self).nodes@)[k].end {
                        let old_map = shape@.leaf_map(old(self).nodes@);
                        let lm = left.leaf_map(old(self).nodes@);
                        let rm = right.leaf_map(old(self).nodes@);
                        assert(old_map == lm.union_prefer_right(rm));
                        assert forall|k: u64| #[trigger] lm.dom().contains(k) implies lm[k].cursor
                            < lm[k].end by {
                            assert(old_map.dom().contains(k));
                            assert(old_map[k] == lm[k]);
                        }
                        assert forall|k: u64| #[trigger] rm.dom().contains(k) implies rm[k].cursor
                            < rm[k].end by {
                            assert(old_map.dom().contains(k));
                            assert(old_map[k] == rm[k]);
                        }
                        assert forall|k: u64| #[trigger] fork.leaf_map(self.nodes@).dom().contains(
                            k,
                        ) implies fork.leaf_map(self.nodes@)[k].cursor < fork.leaf_map(
                            self.nodes@,
                        )[k].end by {
                            if new_right.leaf_map(self.nodes@).dom().contains(k) {
                            } else {
                                assert(new_left.leaf_map(self.nodes@).dom().contains(k));
                            }
                        }
                    }
                    // The free list shrank only by what the recursion consumed.
                    assert(self.free_nodes@ =~= old(self).free_nodes@.take(
                        self.free_nodes@.len() as int,
                    ));
                    assert forall|i: int|
                        0 <= i < self.free_nodes@.len() implies !fork.node_set().contains(
                        #[trigger] self.free_nodes@[i] as int,
                    ) by {
                        assert(!shape@.node_set().contains(old(self).free_nodes@[i] as int));
                    }
                    assert forall|x: int| fork.node_set().contains(x) implies shape@.node_set().contains(
                        x,
                    ) || old(self).free_nodes@.contains(x as u8) by {}
                    assert forall|i: int|
                        0 <= i < old(self).nodes@.len() && !fork.node_set().contains(i) implies
                        self.nodes@[i] == old(self).nodes@[i] by {}
                    // The descent matches the step the interpreter takes here.
                    assert forall|fuel: nat|
                        fuel >= shape@.height() + old(self).free_nodes@.len() implies
                        #[trigger] spec_borrow(
                        old(self).nodes@,
                        old(self).free_nodes@,
                        idx as int,
                        fuel,
                    ) == (self.nodes@, self.free_nodes@, b) by {
                        let cf = (fuel - 1) as nat;
                        if chosen == n.left {
                            assert(cf >= left.height() + old(self).free_nodes@.len());
                            assert(spec_borrow(
                                old(self).nodes@,
                                old(self).free_nodes@,
                                n.left as int,
                                cf,
                            ) == (mid_nodes, self.free_nodes@, b));
                        } else {
                            assert(cf >= right.height() + old(self).free_nodes@.len());
                            assert(spec_borrow(
                                old(self).nodes@,
                                old(self).free_nodes@,
                                n.right as int,
                                cf,
                            ) == (mid_nodes, self.free_nodes@, b));
                        }
                        assert(self.nodes@ == mid_nodes.update(
                            idx as int,
                            Node::Internal(
                                Internal {
                                    holders: (n.holders + 1) as usize,
                                    nr_free_blocks: n.nr_free_blocks,
                                    cut: n.cut,
                                    left: n.left,
                                    right: n.right,
                                },
                            ),
                        ));
                    }
                    // Every block a leaf still hinted stays hinted by a leaf.
                    assert forall|k: u64, x: u64| #[trigger] leaf_covers(
                        shape@.leaf_map(old(self).nodes@),
                        k,
                        x,
                    ) implies exists|k2: u64| #[trigger] leaf_covers(
                        fork.leaf_map(self.nodes@),
                        k2,
                        x,
                    ) by {
                        let old_lm = left.leaf_map(old(self).nodes@);
                        let old_rm = right.leaf_map(old(self).nodes@);
                        if old_lm.dom().contains(k) {
                            assert(shape@.leaf_map(old(self).nodes@)[k] == old_lm[k]);
                            assert(leaf_covers(old_lm, k, x));
                            assert(leaf_covers(new_left.leaf_map(self.nodes@), k, x)
                                || exists|k2: u64| #[trigger] leaf_covers(
                                new_left.leaf_map(self.nodes@),
                                k2,
                                x,
                            ));
                            let k2 = choose|k2: u64| #[trigger] leaf_covers(
                                new_left.leaf_map(self.nodes@),
                                k2,
                                x,
                            );
                            assert(!new_right.leaf_map(self.nodes@).dom().contains(k2));
                            assert(leaf_covers(fork.leaf_map(self.nodes@), k2, x));
                        } else {
                            assert(old_rm.dom().contains(k));
                            assert(shape@.leaf_map(old(self).nodes@)[k] == old_rm[k]);
                            assert(leaf_covers(old_rm, k, x));
                            assert(leaf_covers(new_right.leaf_map(self.nodes@), k, x)
                                || exists|k2: u64| #[trigger] leaf_covers(
                                new_right.leaf_map(self.nodes@),
                                k2,
                                x,
                            ));
                            let k2 = choose|k2: u64| #[trigger] leaf_covers(
                                new_right.leaf_map(self.nodes@),
                                k2,
                                x,
                            );
                            assert(leaf_covers(fork.leaf_map(self.nodes@), k2, x));
                        }
                    }
                }
                (b, Ghost(fork))
            },
            Node::Leaf(l) => {
                if l.holders > 0 {
                    // Someone is already using this extent: split it if we
                    // can, and share it otherwise.
                    let (split, fork) = self.split_leaf(idx, shape, lo, hi);
                    if split {
                        let ghost mid_self = *self;
                        let r = self.borrow_at(idx, fork, lo, hi);
                        proof {
                            let gl = old(self).nodes@[idx as int]->Leaf_0;
                            let gmid = (gl.extent.cursor + (gl.extent.end - gl.extent.cursor)
                                / 2) as u64;
                            assert(shape@.leaf_map(old(self).nodes@).dom() =~= set![gl.extent.begin]);
                            assert(mid_self.free_nodes@ == old(self).free_nodes@.take(
                                old(self).free_nodes@.len() - 2,
                            ));
                            assert(mid_self.free_nodes@.len() == old(self).free_nodes@.len() - 2);
                            assert(self.free_nodes@ == mid_self.free_nodes@.take(
                                self.free_nodes@.len() as int,
                            ));
                            assert forall|i: int|
                                0 <= i < self.free_nodes@.len() implies self.free_nodes@[i] == old(
                                self,
                            ).free_nodes@[i] by {
                                assert(self.free_nodes@[i] == mid_self.free_nodes@[i]);
                            }
                            assert(self.free_nodes@ =~= old(self).free_nodes@.take(
                                self.free_nodes@.len() as int,
                            ));
                            // The path to the borrowed leaf, and its effect
                            // on the leaf map, composes across the split.
                            let mid_map = fork@.leaf_map(mid_self.nodes@);
                            let old_map = shape@.leaf_map(old(self).nodes@);
                            let new_map = r.1@.leaf_map(self.nodes@);
                            assert(mid_map.dom() =~= set![gl.extent.begin, gmid]);
                            assert(gl.extent.begin < gmid);
                            // Both split halves keep free blocks, so every
                            // leaf the recursion can return keeps some too.
                            assert forall|k: u64| #[trigger] mid_map.dom().contains(k) implies
                                mid_map[k].cursor < mid_map[k].end by {}
                            assert(new_map[r.0].cursor < new_map[r.0].end);
                            assert forall|i: int|
                                0 <= i < old(self).nodes@.len() && !r.1@.node_set().contains(i)
                                    implies self.nodes@[i] == old(self).nodes@[i] by {
                                assert(!fork@.node_set().contains(i));
                            }
                            assert forall|k: u64| #[trigger] old_map.dom().contains(k) implies
                                new_map.dom().contains(k) && new_map[k].cursor == old_map[k].cursor
                                && new_map[k].end <= old_map[k].end && new_map[k].holders
                                == old_map[k].holders + (if k == r.0 {
                                1nat
                            } else {
                                0nat
                            }) by {
                                assert(k == gl.extent.begin);
                                assert(mid_map.dom().contains(k));
                                assert(mid_map[k].cursor == old_map[k].cursor);
                                assert(mid_map[k].end <= old_map[k].end);
                                assert(mid_map[k].holders == old_map[k].holders);
                            }
                            assert forall|k: u64| #[trigger]
                                new_map.dom().contains(k) && !old_map.dom().contains(k) implies
                                new_map[k].cursor == k && new_map[k].holders == (
                            if k == r.0 {
                                1nat
                            } else {
                                0nat
                            }) by {
                                if mid_map.dom().contains(k) {
                                    assert(k == gmid);
                                    assert(mid_map[k].cursor == k);
                                    assert(mid_map[k].holders == 0nat);
                                }
                            }
                            assert forall|x: int|
                                r.1@.node_set().contains(x) implies shape@.node_set().contains(x)
                                || old(self).free_nodes@.contains(x as u8) by {
                                if !shape@.node_set().contains(x) {
                                    if fork@.node_set().contains(x) {
                                        assert(old(self).free_nodes@.contains(x as u8));
                                    } else {
                                        assert(mid_self.free_nodes@.contains(x as u8));
                                        let j = choose|j: int|
                                            0 <= j < mid_self.free_nodes@.len()
                                                && mid_self.free_nodes@[j] == x as u8;
                                        assert(old(self).free_nodes@[j] == x as u8);
                                    }
                                }
                            }
                            // The split-and-retry matches the interpreter.
                            assert forall|fuel: nat|
                                fuel >= shape@.height() + old(self).free_nodes@.len() implies
                                #[trigger] spec_borrow(
                                old(self).nodes@,
                                old(self).free_nodes@,
                                idx as int,
                                fuel,
                            ) == (self.nodes@, self.free_nodes@, r.0) by {
                                assert(shape@.height() == 1);
                                assert(spec_can_split(
                                    old(self).nodes@,
                                    old(self).free_nodes@,
                                    idx as int,
                                ));
                                assert(spec_split(
                                    old(self).nodes@,
                                    old(self).free_nodes@,
                                    idx as int,
                                ).0 == mid_self.nodes@);
                                assert(spec_split(
                                    old(self).nodes@,
                                    old(self).free_nodes@,
                                    idx as int,
                                ).1 == mid_self.free_nodes@);
                                let cf = (fuel - 1) as nat;
                                assert(fork@.height() == 2);
                                assert(cf >= fork@.height() + mid_self.free_nodes@.len());
                                assert(spec_borrow(
                                    mid_self.nodes@,
                                    mid_self.free_nodes@,
                                    idx as int,
                                    cf,
                                ) == (self.nodes@, self.free_nodes@, r.0));
                            }
                            assert forall|k: u64, x: u64| #[trigger] leaf_covers(
                                old_map,
                                k,
                                x,
                            ) implies exists|k2: u64| #[trigger] leaf_covers(new_map, k2, x) by {
                                assert(k == gl.extent.begin);
                                if x < gmid {
                                    assert(leaf_covers(mid_map, k, x));
                                } else {
                                    assert(leaf_covers(mid_map, gmid, x));
                                }
                            }
                        }
                        r
                    } else {
                        self.nodes[idx as usize] = Node::Leaf(
                            Leaf { extent: l.extent, holders: l.holders + 1 },
                        );
                        proof {
                            assert(shape@.leaf_map(self.nodes@) =~= shape@.leaf_map(
                                old(self).nodes@,
                            ).insert(
                                l.extent.begin,
                                LeafInfo {
                                    end: l.extent.end,
                                    cursor: l.extent.cursor,
                                    holders: (l.holders + 1) as nat,
                                },
                            ));
                            assert(self.free_nodes@ =~= old(self).free_nodes@.take(
                                self.free_nodes@.len() as int,
                            ));
                            assert forall|fuel: nat|
                                fuel >= shape@.height() + old(self).free_nodes@.len() implies
                                #[trigger] spec_borrow(
                                old(self).nodes@,
                                old(self).free_nodes@,
                                idx as int,
                                fuel,
                            ) == (self.nodes@, self.free_nodes@, l.extent.begin) by {
                                assert(!spec_can_split(
                                    old(self).nodes@,
                                    old(self).free_nodes@,
                                    idx as int,
                                ));
                                assert(self.nodes@ == old(self).nodes@.update(
                                    idx as int,
                                    Node::Leaf(
                                        Leaf {
                                            extent: l.extent,
                                            holders: (l.holders + 1) as usize,
                                        },
                                    ),
                                ));
                            }
                            assert forall|k: u64, x: u64| #[trigger] leaf_covers(
                                shape@.leaf_map(old(self).nodes@),
                                k,
                                x,
                            ) implies exists|k2: u64| #[trigger] leaf_covers(
                                shape@.leaf_map(self.nodes@),
                                k2,
                                x,
                            ) by {
                                assert(leaf_covers(shape@.leaf_map(self.nodes@), k, x));
                            }
                        }
                        (l.extent.begin, shape)
                    }
                } else {
                    // No one is using this extent, so we can just take it.
                    self.nodes[idx as usize] = Node::Leaf(
                        Leaf { extent: l.extent, holders: l.holders + 1 },
                    );
                    proof {
                        assert(shape@.leaf_map(self.nodes@) =~= shape@.leaf_map(
                            old(self).nodes@,
                        ).insert(
                            l.extent.begin,
                            LeafInfo {
                                end: l.extent.end,
                                cursor: l.extent.cursor,
                                holders: (l.holders + 1) as nat,
                            },
                        ));
                        assert(self.free_nodes@ =~= old(self).free_nodes@.take(
                            self.free_nodes@.len() as int,
                        ));
                        assert forall|fuel: nat|
                            fuel >= shape@.height() + old(self).free_nodes@.len() implies
                            #[trigger] spec_borrow(
                            old(self).nodes@,
                            old(self).free_nodes@,
                            idx as int,
                            fuel,
                        ) == (self.nodes@, self.free_nodes@, l.extent.begin) by {
                            assert(self.nodes@ == old(self).nodes@.update(
                                idx as int,
                                Node::Leaf(
                                    Leaf { extent: l.extent, holders: (l.holders + 1) as usize },
                                ),
                            ));
                        }
                        assert forall|k: u64, x: u64| #[trigger] leaf_covers(
                            shape@.leaf_map(old(self).nodes@),
                            k,
                            x,
                        ) implies exists|k2: u64| #[trigger] leaf_covers(
                            shape@.leaf_map(self.nodes@),
                            k2,
                            x,
                        ) by {
                            assert(leaf_covers(shape@.leaf_map(self.nodes@), k, x));
                        }
                    }
                    (l.extent.begin, shape)
                }
            },
        }
    }

    /// Borrows a leaf extent: returns its `begin`, or `None` once every leaf
    /// has been pruned.  The chosen leaf's holder count — and that of every
    /// node above it — goes up by one; leaves on the way may be split, which
    /// narrows an existing extent's `end` in place and adds a fresh leaf
    /// whose cursor sits at its own `begin`.  The resulting pool is exactly
    /// what [`spec_borrow`] plays out, and since the invariant is preserved,
    /// [`Self::lemma_holders_sum`] and [`Self::lemma_pool_conservation`]
    /// apply to the new state as to the old.
    pub fn borrow(&mut self) -> (r: Option<u64>)
        requires
            old(self).wf(),
            old(self).total_holders() < usize::MAX,
        ensures
            final(self).wf(),
            final(self).spec_nr_blocks() == old(self).spec_nr_blocks(),
            final(self).total_nodes() == old(self).total_nodes(),
            r is None <==> old(self).leaves().dom() == Set::<u64>::empty(),
            r is None ==> final(self).leaves() == old(self).leaves()
                && final(self).free_count() == old(self).free_count()
                && final(self).total_holders() == old(self).total_holders(),
            final(self).total_capacity() == old(self).total_capacity(),
            final(self).spec_root() == old(self).spec_root(),
            // pool conservation survives every borrow
            final(self).free_count() + final(self).live_count() == final(self).total_nodes(),
            r matches Some(b) ==> ({
                &&& spec_borrow(
                    old(self).spec_nodes(),
                    old(self).spec_free_nodes(),
                    old(self).spec_root() as int,
                    (old(self).total_nodes() + old(self).free_count()) as nat,
                ) == (final(self).spec_nodes(), final(self).spec_free_nodes(), b)
                &&& (forall|k: u64, x: u64| #[trigger]
                    leaf_covers(old(self).leaves(), k, x) ==> exists|k2: u64|
                        #[trigger] leaf_covers(final(self).leaves(), k2, x))
                &&& final(self).leaves().dom().contains(b)
                &&& final(self).total_holders() == old(self).total_holders() + 1
                &&& (final(self).leaves()[b].cursor == final(self).leaves()[b].end
                    ==> final(self).free_count() == old(self).free_count()
                        && final(self).live_count() == old(self).live_count())
                &&& (final(self).free_count() == old(self).free_count()
                    ==> final(self).leaves().dom() == old(self).leaves().dom())
                &&& forall|k: u64| #[trigger]
                    old(self).leaves().dom().contains(k) ==> final(self).leaves().dom().contains(k)
                        && final(self).leaves()[k].cursor == old(self).leaves()[k].cursor
                        && final(self).leaves()[k].end <= old(self).leaves()[k].end
                        && final(self).leaves()[k].holders == old(self).leaves()[k].holders + (
                    if k == b {
                        1nat
                    } else {
                        0nat
                    })
                &&& forall|k: u64| #[trigger]
                    final(self).leaves().dom().contains(k) && !old(self).leaves().dom().contains(k)
                        ==> final(self).leaves()[k].cursor == k && final(self).leaves()[k].holders
                        == (if k == b {
                        1nat
                    } else {
                        0nat
                    })
            }),
    {
        if self.root == NULL_NODE {
            proof {
                assert(self.leaves().dom() =~= Set::<u64>::empty());
                self.lemma_pool_conservation();
            }
            return None;
        }
        let ghost s = self.shape@->Some_0;
        proof {
            s.lemma_dom_props(self.nodes@, 0, self.nr_blocks as int);
            s.lemma_height_le_count();
        }
        let root = self.root;
        let (b, new_shape) = self.borrow_at(
            root,
            Ghost(s),
            Ghost(0),
            Ghost(self.nr_blocks as int),
        );
        self.shape = Ghost(Some(new_shape@));
        proof {
            assert(old(self).leaves().dom().contains(s.first_leaf_begin(old(self).nodes@)));
            assert(old(self).leaves().dom() != Set::<u64>::empty());
            assert forall|k: u64, x: u64| #[trigger] leaf_covers(old(self).leaves(), k, x) implies
                exists|k2: u64| #[trigger] leaf_covers(self.leaves(), k2, x) by {
                assert(leaf_covers(s.leaf_map(old(self).nodes@), k, x));
                let k2 = choose|k2: u64| #[trigger] leaf_covers(
                    new_shape@.leaf_map(self.nodes@),
                    k2,
                    x,
                );
                assert(leaf_covers(self.leaves(), k2, x));
            }
            self.lemma_pool_conservation();
        }
        Some(b)
    }

    /// The release ascent.  Walks from `idx` to the leaf keyed by `b` using
    /// each internal node's `cut`, decrements every holder count on the path,
    /// frees the leaf once it is drained and unheld, and collapses internal
    /// nodes left with a single child.  Returns the slot that replaces `idx`.
    fn release_at(&mut self, b: u64, idx: u8, shape: Ghost<Shape>, lo: Ghost<int>, hi: Ghost<int>) -> (res: (
        u8,
        Ghost<Option<Shape>>,
    ))
        requires
            old(self).free_ok(),
            old(self).nodes@.len() <= 255,
            shape@.wf(old(self).nodes@, lo@, hi@),
            idx == shape@.idx(),
            old(self).free_disjoint(shape@.node_set()),
            shape@.leaf_map(old(self).nodes@).dom().contains(b),
            shape@.leaf_map(old(self).nodes@)[b].holders >= 1,
            0 <= lo@,
            hi@ <= u64::MAX,
        ensures
            final(self).nodes@.len() == old(self).nodes@.len(),
            final(self).root == old(self).root,
            final(self).nr_blocks == old(self).nr_blocks,
            final(self).shape == old(self).shape,
            final(self).free_ok(),
            final(self).free_nodes@.len() >= old(self).free_nodes@.len(),
            final(self).free_nodes@.take(old(self).free_nodes@.len() as int) == old(
                self,
            ).free_nodes@,
            forall|j: int|
                old(self).free_nodes@.len() <= j < final(self).free_nodes@.len()
                    ==> shape@.node_set().contains(#[trigger] final(self).free_nodes@[j] as int),
            forall|i: int|
                0 <= i < old(self).nodes@.len() && !shape@.node_set().contains(i)
                    ==> final(self).nodes@[i] == old(self).nodes@[i],
            match res.1@ {
                None => {
                    &&& res.0 == NULL_NODE
                    &&& release_result(shape@.leaf_map(old(self).nodes@), b).dom() == Set::<
                        u64,
                    >::empty()
                    &&& shape@.holders(old(self).nodes@) == 1
                    &&& shape@.capacity(old(self).nodes@) == 0
                    &&& final(self).free_nodes@.len() == old(self).free_nodes@.len()
                        + shape@.count()
                },
                Some(s) => {
                    &&& res.0 == s.idx()
                    &&& s.wf(final(self).nodes@, lo@, hi@)
                    &&& s.leaf_map(final(self).nodes@) == release_result(
                        shape@.leaf_map(old(self).nodes@),
                        b,
                    )
                    &&& s.holders(final(self).nodes@) == shape@.holders(old(self).nodes@) - 1
                    &&& s.capacity(final(self).nodes@) == shape@.capacity(old(self).nodes@)
                    &&& (shape@.leaf_map(old(self).nodes@)[b].cursor == shape@.leaf_map(
                        old(self).nodes@,
                    )[b].end && shape@.leaf_map(old(self).nodes@)[b].holders == 1 ==> s.count()
                        < shape@.count())
                    &&& (!(shape@.leaf_map(old(self).nodes@)[b].cursor == shape@.leaf_map(
                        old(self).nodes@,
                    )[b].end && shape@.leaf_map(old(self).nodes@)[b].holders == 1)
                        ==> final(self).free_nodes@.len() == old(self).free_nodes@.len())
                    &&& forall|x: int|
                        s.node_set().contains(x) ==> shape@.node_set().contains(x)
                    &&& final(self).free_disjoint(s.node_set())
                    &&& s.count() + final(self).free_nodes@.len() == shape@.count() + old(
                        self,
                    ).free_nodes@.len()
                    // a surviving internal node is untouched, or its hint was
                    // recomputed as the sum of its children's
                    &&& (forall|i: int| #[trigger]
                        s.node_set().contains(i) ==> match final(self).nodes@[i] {
                            Node::Internal(n) => final(self).nodes@[i] == old(self).nodes@[i] || {
                                &&& 0 <= n.left < final(self).nodes@.len()
                                &&& 0 <= n.right < final(self).nodes@.len()
                                &&& n.nr_free_blocks == final(self).nodes@[
                                    n.left as int
                                ].spec_free_hint() + final(self).nodes@[n.right as int].spec_free_hint()
                            },
                            Node::Leaf(_) => true,
                        })
                },
            },
        decreases shape@.height(),
    {
        let node = self.nodes[idx as usize];
        match node {
            Node::Leaf(l) => {
                proof {
                    assert(b == l.extent.begin);
                }
                if l.extent.cursor == l.extent.end && l.holders == 1 {
                    // The extent is drained and this was its last borrow:
                    // free the slot so ancestors can collapse.
                    proof {
                        lemma_not_free(old(self).free_nodes@, shape@.node_set(), idx as int);
                    }
                    self.free_nodes.push(idx);
                    proof {
                        assert(release_result(shape@.leaf_map(old(self).nodes@), b).dom()
                            =~= Set::<u64>::empty());
                        assert(self.free_nodes@.take(old(self).free_nodes@.len() as int)
                            =~= old(self).free_nodes@);
                    }
                    (NULL_NODE, Ghost(None))
                } else {
                    self.nodes[idx as usize] = Node::Leaf(
                        Leaf { extent: l.extent, holders: l.holders - 1 },
                    );
                    proof {
                        assert(shape@.leaf_map(self.nodes@) =~= release_result(
                            shape@.leaf_map(old(self).nodes@),
                            b,
                        ));
                        assert(self.free_nodes@.take(old(self).free_nodes@.len() as int)
                            =~= old(self).free_nodes@);
                    }
                    (idx, Ghost(Some(shape@)))
                }
            },
            Node::Internal(n) => {
                let ghost left = *shape@->Fork_left;
                let ghost right = *shape@->Fork_right;
                let ghost old_map = shape@.leaf_map(old(self).nodes@);
                proof {
                    assert(shape@.node_set().contains(idx as int));
                    lemma_not_free(old(self).free_nodes@, shape@.node_set(), idx as int);
                    left.lemma_dom_props(old(self).nodes@, lo@, n.cut as int);
                    right.lemma_dom_props(old(self).nodes@, n.cut as int, hi@);
                    left.lemma_node_set_bounds(old(self).nodes@, lo@, n.cut as int);
                    right.lemma_node_set_bounds(old(self).nodes@, n.cut as int, hi@);
                    shape@.lemma_holders_lower(old(self).nodes@, lo@, hi@, b);
                    left.lemma_holders_nonneg(old(self).nodes@, lo@, n.cut as int);
                    right.lemma_holders_nonneg(old(self).nodes@, n.cut as int, hi@);
                    assert forall|i: int| left.node_set().contains(i) implies shape@.node_set().contains(
                        i,
                    ) by {}
                    assert forall|i: int| right.node_set().contains(i) implies shape@.node_set().contains(
                        i,
                    ) by {}
                }
                if b < n.cut {
                    proof {
                        assert(!right.leaf_map(old(self).nodes@).dom().contains(b));
                        assert(left.leaf_map(old(self).nodes@).dom().contains(b));
                        assert(old_map[b] == left.leaf_map(old(self).nodes@)[b]);
                    }
                    let r = self.release_at(b, n.left, Ghost(left), lo, Ghost(n.cut as int));
                    proof {
                        right.lemma_frame(old(self).nodes@, self.nodes@, n.cut as int, hi@);
                    }
                    if r.0 == NULL_NODE {
                        proof {
                            if r.1@ is Some {
                                let s = r.1@->Some_0;
                                assert(s.idx() < self.nodes@.len());
                            }
                            assert(r.1@ is None);
                            assert(!self.free_nodes@.contains(idx)) by {
                                if self.free_nodes@.contains(idx) {
                                    let j = choose|j: int|
                                        0 <= j < self.free_nodes@.len() && self.free_nodes@[j]
                                            == idx;
                                    if j < old(self).free_nodes@.len() {
                                        assert(old(self).free_nodes@[j] == idx);
                                    } else {
                                        assert(left.node_set().contains(idx as int));
                                    }
                                }
                            }
                        }
                        self.free_nodes.push(idx);
                        proof {
                            right.lemma_widen(self.nodes@, n.cut as int, hi@, lo@, hi@);
                            assert(self.free_nodes@.take(old(self).free_nodes@.len() as int)
                                =~= old(self).free_nodes@);
                            // The left subtree vanished: its only leaf was `b`,
                            // drained and on its last borrow, so what remains
                            // is exactly the right half.
                            assert(left.leaf_map(old(self).nodes@).dom() =~= set![b]);
                            let lm = left.leaf_map(old(self).nodes@);
                            assert(lm[b].cursor == lm[b].end && lm[b].holders == 1) by {
                                if !(lm[b].cursor == lm[b].end && lm[b].holders == 1) {
                                    assert(release_result(lm, b).dom().contains(b));
                                }
                            }
                            assert(release_result(old_map, b) == old_map.remove(b));
                            assert(right.leaf_map(self.nodes@) =~= release_result(old_map, b));
                            assert forall|i: int|
                                0 <= i < self.free_nodes@.len() implies !right.node_set().contains(
                                #[trigger] self.free_nodes@[i] as int,
                            ) by {
                                if i < old(self).free_nodes@.len() {
                                    assert(!shape@.node_set().contains(
                                        old(self).free_nodes@[i] as int,
                                    ));
                                } else if i < self.free_nodes@.len() - 1 {
                                    assert(left.node_set().contains(self.free_nodes@[i] as int));
                                } else {
                                    assert(self.free_nodes@[i] == idx);
                                }
                            }
                        }
                        (n.right, Ghost(Some(right)))
                    } else {
                        let ghost s_left = r.1@->Some_0;
                        proof {
                            assert(r.1@ is Some);
                        }
                        let lf = self.free_hint(r.0, Ghost(s_left), lo, Ghost(n.cut as int));
                        let rf = self.free_hint(n.right, Ghost(right), Ghost(n.cut as int), hi);
                        let ghost mid_nodes = self.nodes@;
                        self.nodes[idx as usize] = Node::Internal(
                            Internal {
                                holders: n.holders - 1,
                                nr_free_blocks: lf + rf,
                                cut: n.cut,
                                left: r.0,
                                right: n.right,
                            },
                        );
                        let ghost fork = Shape::Fork {
                            idx: idx as int,
                            left: Box::new(s_left),
                            right: Box::new(right),
                        };
                        proof {
                            assert(self.nodes@ == mid_nodes.update(
                                idx as int,
                                self.nodes@[idx as int],
                            ));
                            assert(!s_left.node_set().contains(idx as int));
                            assert(!right.node_set().contains(idx as int));
                            s_left.lemma_node_set_bounds(mid_nodes, lo@, n.cut as int);
                            s_left.lemma_frame(mid_nodes, self.nodes@, lo@, n.cut as int);
                            right.lemma_frame(mid_nodes, self.nodes@, n.cut as int, hi@);
                            s_left.lemma_dom_props(self.nodes@, lo@, n.cut as int);
                            right.lemma_dom_props(self.nodes@, n.cut as int, hi@);
                            assert(fork.wf(self.nodes@, lo@, hi@));
                            s_left.lemma_internal_sums(self.nodes@, lo@, n.cut as int);
                            right.lemma_node_set_bounds(self.nodes@, n.cut as int, hi@);
                            assert forall|i: int| #[trigger]
                                fork.node_set().contains(i) implies match self.nodes@[i] {
                                Node::Internal(n2) => self.nodes@[i] == old(self).nodes@[i] || {
                                    &&& 0 <= n2.left < self.nodes@.len()
                                    &&& 0 <= n2.right < self.nodes@.len()
                                    &&& n2.nr_free_blocks == self.nodes@[
                                        n2.left as int
                                    ].spec_free_hint() + self.nodes@[n2.right as int].spec_free_hint()
                                },
                                Node::Leaf(_) => true,
                            } by {
                                if i == idx as int {
                                    assert(self.nodes@[r.0 as int] == mid_nodes[r.0 as int]);
                                    assert(self.nodes@[n.right as int] == mid_nodes[
                                        n.right as int
                                    ]);
                                } else if s_left.node_set().contains(i) {
                                    assert(self.nodes@[i] == mid_nodes[i]);
                                    if mid_nodes[i] != old(self).nodes@[i]
                                        && mid_nodes[i] is Internal {
                                        let n2 = self.nodes@[i]->Internal_0;
                                        assert(s_left.node_set().contains(n2.left as int));
                                        assert(s_left.node_set().contains(n2.right as int));
                                        assert(self.nodes@[n2.left as int] == mid_nodes[
                                            n2.left as int
                                        ]);
                                        assert(self.nodes@[n2.right as int] == mid_nodes[
                                            n2.right as int
                                        ]);
                                    }
                                } else {
                                    assert(right.node_set().contains(i));
                                    assert(self.nodes@[i] == old(self).nodes@[i]);
                                }
                            }
                            assert(fork.leaf_map(self.nodes@) =~= release_result(old_map, b));
                            assert(fork.node_set() =~= s_left.node_set().union(
                                right.node_set(),
                            ).insert(idx as int));
                            assert forall|i: int|
                                0 <= i < self.free_nodes@.len() implies !fork.node_set().contains(
                                #[trigger] self.free_nodes@[i] as int,
                            ) by {
                                if i < old(self).free_nodes@.len() {
                                    assert(!shape@.node_set().contains(
                                        old(self).free_nodes@[i] as int,
                                    ));
                                } else {
                                    assert(left.node_set().contains(self.free_nodes@[i] as int));
                                }
                            }
                            assert forall|i: int|
                                0 <= i < old(self).nodes@.len() && !shape@.node_set().contains(i)
                                    implies self.nodes@[i] == old(self).nodes@[i] by {
                                assert(!left.node_set().contains(i));
                            }
                        }
                        (idx, Ghost(Some(fork)))
                    }
                } else {
                    proof {
                        assert(!left.leaf_map(old(self).nodes@).dom().contains(b));
                        assert(right.leaf_map(old(self).nodes@).dom().contains(b));
                        assert(old_map[b] == right.leaf_map(old(self).nodes@)[b]);
                    }
                    let r = self.release_at(b, n.right, Ghost(right), Ghost(n.cut as int), hi);
                    proof {
                        left.lemma_frame(old(self).nodes@, self.nodes@, lo@, n.cut as int);
                    }
                    if r.0 == NULL_NODE {
                        proof {
                            if r.1@ is Some {
                                let s = r.1@->Some_0;
                                assert(s.idx() < self.nodes@.len());
                            }
                            assert(r.1@ is None);
                            assert(!self.free_nodes@.contains(idx)) by {
                                if self.free_nodes@.contains(idx) {
                                    let j = choose|j: int|
                                        0 <= j < self.free_nodes@.len() && self.free_nodes@[j]
                                            == idx;
                                    if j < old(self).free_nodes@.len() {
                                        assert(old(self).free_nodes@[j] == idx);
                                    } else {
                                        assert(right.node_set().contains(idx as int));
                                    }
                                }
                            }
                        }
                        self.free_nodes.push(idx);
                        proof {
                            left.lemma_widen(self.nodes@, lo@, n.cut as int, lo@, hi@);
                            assert(self.free_nodes@.take(old(self).free_nodes@.len() as int)
                                =~= old(self).free_nodes@);
                            assert(right.leaf_map(old(self).nodes@).dom() =~= set![b]);
                            let rm = right.leaf_map(old(self).nodes@);
                            assert(rm[b].cursor == rm[b].end && rm[b].holders == 1) by {
                                if !(rm[b].cursor == rm[b].end && rm[b].holders == 1) {
                                    assert(release_result(rm, b).dom().contains(b));
                                }
                            }
                            assert(release_result(old_map, b) == old_map.remove(b));
                            assert(left.leaf_map(self.nodes@) =~= release_result(old_map, b));
                            assert forall|i: int|
                                0 <= i < self.free_nodes@.len() implies !left.node_set().contains(
                                #[trigger] self.free_nodes@[i] as int,
                            ) by {
                                if i < old(self).free_nodes@.len() {
                                    assert(!shape@.node_set().contains(
                                        old(self).free_nodes@[i] as int,
                                    ));
                                } else if i < self.free_nodes@.len() - 1 {
                                    assert(right.node_set().contains(self.free_nodes@[i] as int));
                                } else {
                                    assert(self.free_nodes@[i] == idx);
                                }
                            }
                        }
                        (n.left, Ghost(Some(left)))
                    } else {
                        let ghost s_right = r.1@->Some_0;
                        proof {
                            assert(r.1@ is Some);
                        }
                        let lf = self.free_hint(n.left, Ghost(left), lo, Ghost(n.cut as int));
                        let rf = self.free_hint(r.0, Ghost(s_right), Ghost(n.cut as int), hi);
                        let ghost mid_nodes = self.nodes@;
                        self.nodes[idx as usize] = Node::Internal(
                            Internal {
                                holders: n.holders - 1,
                                nr_free_blocks: lf + rf,
                                cut: n.cut,
                                left: n.left,
                                right: r.0,
                            },
                        );
                        let ghost fork = Shape::Fork {
                            idx: idx as int,
                            left: Box::new(left),
                            right: Box::new(s_right),
                        };
                        proof {
                            assert(self.nodes@ == mid_nodes.update(
                                idx as int,
                                self.nodes@[idx as int],
                            ));
                            assert(!left.node_set().contains(idx as int));
                            assert(!s_right.node_set().contains(idx as int));
                            s_right.lemma_node_set_bounds(mid_nodes, n.cut as int, hi@);
                            left.lemma_frame(mid_nodes, self.nodes@, lo@, n.cut as int);
                            s_right.lemma_frame(mid_nodes, self.nodes@, n.cut as int, hi@);
                            left.lemma_dom_props(self.nodes@, lo@, n.cut as int);
                            s_right.lemma_dom_props(self.nodes@, n.cut as int, hi@);
                            assert(fork.wf(self.nodes@, lo@, hi@));
                            s_right.lemma_internal_sums(self.nodes@, n.cut as int, hi@);
                            left.lemma_node_set_bounds(self.nodes@, lo@, n.cut as int);
                            assert forall|i: int| #[trigger]
                                fork.node_set().contains(i) implies match self.nodes@[i] {
                                Node::Internal(n2) => self.nodes@[i] == old(self).nodes@[i] || {
                                    &&& 0 <= n2.left < self.nodes@.len()
                                    &&& 0 <= n2.right < self.nodes@.len()
                                    &&& n2.nr_free_blocks == self.nodes@[
                                        n2.left as int
                                    ].spec_free_hint() + self.nodes@[n2.right as int].spec_free_hint()
                                },
                                Node::Leaf(_) => true,
                            } by {
                                if i == idx as int {
                                    assert(self.nodes@[r.0 as int] == mid_nodes[r.0 as int]);
                                    assert(self.nodes@[n.left as int] == mid_nodes[n.left as int]);
                                } else if s_right.node_set().contains(i) {
                                    assert(self.nodes@[i] == mid_nodes[i]);
                                    if mid_nodes[i] != old(self).nodes@[i]
                                        && mid_nodes[i] is Internal {
                                        let n2 = self.nodes@[i]->Internal_0;
                                        assert(s_right.node_set().contains(n2.left as int));
                                        assert(s_right.node_set().contains(n2.right as int));
                                        assert(self.nodes@[n2.left as int] == mid_nodes[
                                            n2.left as int
                                        ]);
                                        assert(self.nodes@[n2.right as int] == mid_nodes[
                                            n2.right as int
                                        ]);
                                    }
                                } else {
                                    assert(left.node_set().contains(i));
                                    assert(self.nodes@[i] == old(self).nodes@[i]);
                                }
                            }
                            assert(fork.leaf_map(self.nodes@) =~= release_result(old_map, b));
                            assert(fork.node_set() =~= left.node_set().union(
                                s_right.node_set(),
                            ).insert(idx as int));
                            assert forall|i: int|
                                0 <= i < self.free_nodes@.len() implies !fork.node_set().contains(
                                #[trigger] self.free_nodes@[i] as int,
                            ) by {
                                if i < old(self).free_nodes@.len() {
                                    assert(!shape@.node_set().contains(
                                        old(self).free_nodes@[i] as int,
                                    ));
                                } else {
                                    assert(right.node_set().contains(self.free_nodes@[i] as int));
                                }
                            }
                            assert forall|i: int|
                                0 <= i < old(self).nodes@.len() && !shape@.node_set().contains(i)
                                    implies self.nodes@[i] == old(self).nodes@[i] by {
                                assert(!right.node_set().contains(i));
                            }
                        }
                        (idx, Ghost(Some(fork)))
                    }
                }
            },
        }
    }

    /// Returns one borrow of the leaf whose extent begins at `begin`.  The
    /// holder count of the leaf and of every node above it drops by one; a
    /// leaf that is both drained and no longer held is pruned, and ancestors
    /// collapse around it.
    #[verifier::rlimit(60)]
    pub fn release(&mut self, begin: u64)
        requires
            old(self).wf(),
            old(self).leaves().dom().contains(begin),
            old(self).leaves()[begin].holders >= 1,
        ensures
            final(self).wf(),
            final(self).spec_nr_blocks() == old(self).spec_nr_blocks(),
            final(self).total_nodes() == old(self).total_nodes(),
            final(self).leaves() == release_result(old(self).leaves(), begin),
            final(self).total_holders() == old(self).total_holders() - 1,
            final(self).total_capacity() == old(self).total_capacity(),
            final(self).free_count() >= old(self).free_count(),
            // pool conservation survives every release
            final(self).free_count() + final(self).live_count() == final(self).total_nodes(),
            (old(self).leaves()[begin].cursor == old(self).leaves()[begin].end && old(
                self,
            ).leaves()[begin].holders == 1) ==> final(self).live_count() < old(self).live_count(),
            !(old(self).leaves()[begin].cursor == old(self).leaves()[begin].end && old(
                self,
            ).leaves()[begin].holders == 1) ==> final(self).live_count() == old(self).live_count()
                && final(self).free_count() == old(self).free_count(),
            // every internal node on the walked path had its free-block hint
            // recomputed as the sum of its children's; all others are untouched
            forall|i: int| #[trigger]
                final(self).live_nodes().contains(i) ==> match final(self).spec_nodes()[i] {
                    Node::Internal(n) => final(self).spec_nodes()[i] == old(self).spec_nodes()[i]
                        || {
                        &&& 0 <= n.left < final(self).total_nodes()
                        &&& 0 <= n.right < final(self).total_nodes()
                        &&& n.nr_free_blocks == final(self).spec_nodes()[
                            n.left as int
                        ].spec_free_hint() + final(self).spec_nodes()[n.right as int].spec_free_hint()
                    },
                    Node::Leaf(_) => true,
                },
    {
        let ghost s = self.shape@->Some_0;
        let root = self.root;
        let (new_root, new_shape) = self.release_at(
            begin,
            root,
            Ghost(s),
            Ghost(0),
            Ghost(self.nr_blocks as int),
        );
        self.root = new_root;
        self.shape = Ghost(new_shape@);
        proof {
            if new_shape@ is None {
                assert(self.leaves() =~= release_result(old(self).leaves(), begin));
            }
            self.lemma_pool_conservation();
            if !(old(self).leaves()[begin].cursor == old(self).leaves()[begin].end && old(
                self,
            ).leaves()[begin].holders == 1) {
                assert(new_shape@ is Some) by {
                    if new_shape@ is None {
                        assert(release_result(old(self).leaves(), begin).dom().contains(begin));
                    }
                }
                assert(self.free_nodes@.len() == old(self).free_nodes@.len());
                let s2 = new_shape@->Some_0;
                assert(s2.count() + self.free_nodes@.len() == s.count() + old(
                    self,
                ).free_nodes@.len());
                assert(self.live_count() == old(self).live_count());
            }
        }
    }
}

} // verus!
