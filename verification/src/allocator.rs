//! The allocator façade: the partition tree plus the holder chains.
//!
//! Contexts live in a slab and are addressed by handles.  Every context that
//! holds an extent sits on the doubly-linked chain keyed by the extent's
//! `begin`; the chain is what lets one holder's discovery that an extent is
//! exhausted invalidate every other holder of the same leaf.  All state sits
//! behind `&mut self`: a caller that shares the allocator across threads
//! wraps it in one lock, which is the locking discipline the design assumes.

use vstd::prelude::*;
use vstd::set_lib::set_int_range;

use crate::oracle::Oracle;
use crate::shape::LeafInfo;
use crate::tree::{leaf_covers, release_result, Tree};

verus! {

/// An allocation context: at most one borrowed extent, named by its `begin`,
/// and the links of the holder chain the context sits on.  `prev` is the
/// non-owning back link of the chain.
#[derive(Clone, Copy)]
pub struct AllocContext {
    extent: Option<u64>,
    prev: Option<usize>,
    next: Option<usize>,
    live: bool,
}

/// The allocator: the tree of extents, one chain head per held leaf, and the
/// slab of contexts.
pub struct Allocator {
    extents: Tree,
    holders: Vec<(u64, usize)>,
    contexts: Vec<AllocContext>,
    free_contexts: Vec<usize>,
    chains: Ghost<Map<u64, Seq<usize>>>,
}

/// A vector's length always fits in `usize`.
proof fn lemma_ctx_len_bound(v: &Vec<AllocContext>)
    ensures
        v@.len() <= usize::MAX,
{
    vstd::std_specs::vec::axiom_spec_len(v);
}

impl Allocator {
    /// The size of the context slab (live and dead slots together).
    pub closed spec fn nr_contexts(&self) -> nat {
        self.contexts@.len()
    }

    /// Whether `h` is a handle to a context obtained from
    /// [`Self::get_context`] and not yet returned.
    pub closed spec fn ctx_live(&self, h: int) -> bool {
        0 <= h < self.contexts@.len() && self.contexts@[h].live
    }

    /// The `begin` of the extent context `h` holds, if any.
    pub closed spec fn ctx_extent(&self, h: int) -> Option<u64> {
        self.contexts@[h].extent
    }

    pub closed spec fn ctx_prev(&self, h: int) -> Option<usize> {
        self.contexts@[h].prev
    }

    pub closed spec fn ctx_next(&self, h: int) -> Option<usize> {
        self.contexts@[h].next
    }

    /// The holder chains: for every held leaf, the contexts holding it, from
    /// the head of the chain to its tail.
    pub closed spec fn chains(&self) -> Map<u64, Seq<usize>> {
        self.chains@
    }

    /// The live leaves of the tree, keyed by their extents' `begin`.
    pub closed spec fn leaves(&self) -> Map<u64, LeafInfo> {
        self.extents.leaves()
    }

    pub closed spec fn spec_nr_blocks(&self) -> u64 {
        self.extents.spec_nr_blocks()
    }

    /// The total free capacity over the tree's live leaves.
    pub closed spec fn total_capacity(&self) -> int {
        self.extents.total_capacity()
    }

    /// How many tree nodes are reachable from the root.
    pub closed spec fn live_count(&self) -> nat {
        self.extents.live_count()
    }

    /// The contexts currently holding an extent.
    pub closed spec fn held(&self) -> Set<int> {
        Set::new(
            |h: int|
                0 <= h < self.contexts@.len() && self.contexts@[h].live
                    && self.contexts@[h].extent is Some,
        )
    }

    /// One chain is a well-formed doubly-linked list: every member is a live
    /// context holding this leaf, the head has no back link, every other
    /// member's back link names its predecessor, and every forward link names
    /// the successor.
    pub closed spec fn chain_ok(&self, k: u64) -> bool {
        let c = self.chains@[k];
        &&& c.len() >= 1
        &&& (forall|i: int| 0 <= i < c.len() ==> (#[trigger] c[i] as int) < self.contexts@.len())
        &&& (forall|i: int|
            0 <= i < c.len() ==> (#[trigger] self.contexts@[c[i] as int]).live
                && self.contexts@[c[i] as int].extent == Some(k))
        &&& (forall|i: int|
            0 <= i < c.len() ==> (#[trigger] self.contexts@[c[i] as int]).prev == (if i == 0 {
                None
            } else {
                Some(c[i - 1])
            }))
        &&& (forall|i: int|
            0 <= i < c.len() ==> (#[trigger] self.contexts@[c[i] as int]).next == (if i == c.len()
                - 1 {
                None
            } else {
                Some(c[i + 1])
            }))
        &&& (forall|i: int, j: int| 0 <= i < j < c.len() ==> c[i] != c[j])
    }

    /// The allocator invariant.
    pub closed spec fn wf(&self) -> bool {
        &&& self.extents.wf()
        // The holders vector lists exactly the chain heads, one entry per key.
        &&& (forall|i: int|
            0 <= i < self.holders@.len() ==> self.chains@.dom().contains(
                (#[trigger] self.holders@[i]).0,
            ) && self.chains@[self.holders@[i].0][0] == self.holders@[i].1
                && self.holders@[i].1 < self.contexts@.len())
        &&& (forall|i: int, j: int|
            0 <= i < j < self.holders@.len() ==> self.holders@[i].0 != self.holders@[j].0)
        &&& (forall|k: u64| #[trigger]
            self.chains@.dom().contains(k) ==> exists|i: int|
                0 <= i < self.holders@.len() && (#[trigger] self.holders@[i]).0 == k)
        // Chains are well-formed and agree with the tree's holder counts.
        &&& (forall|k: u64| #[trigger] self.chains@.dom().contains(k) ==> self.chain_ok(k))
        &&& (forall|k: u64| #[trigger]
            self.chains@.dom().contains(k) ==> self.extents.leaves().dom().contains(k)
                && self.extents.leaves()[k].holders == self.chains@[k].len())
        &&& (forall|k: u64|
            #![trigger self.extents.leaves().dom().contains(k)]
            self.extents.leaves().dom().contains(k) && !self.chains@.dom().contains(k)
                ==> self.extents.leaves()[k].holders == 0)
        // Every context that holds an extent is on that extent's chain.
        &&& (forall|h: usize|
            h < self.contexts@.len() && (#[trigger] self.contexts@[h as int]).live
                && self.contexts@[h as int].extent is Some ==> self.chains@.dom().contains(
                self.contexts@[h as int].extent->0,
            ) && self.chains@[self.contexts@[h as int].extent->0].contains(h))
        // Contexts holding nothing are detached, and dead slots are empty.
        &&& (forall|h: usize|
            h < self.contexts@.len() && (#[trigger] self.contexts@[h as int]).live
                && self.contexts@[h as int].extent is None ==> self.contexts@[h as int].prev is None
                && self.contexts@[h as int].next is None)
        &&& (forall|h: usize|
            h < self.contexts@.len() && !(#[trigger] self.contexts@[h as int]).live
                ==> self.contexts@[h as int].extent is None && self.contexts@[h as int].prev is None
                && self.contexts@[h as int].next is None)
        // The free slot list holds exactly the dead slots, each once.
        &&& (forall|i: int|
            0 <= i < self.free_contexts@.len() ==> (#[trigger] self.free_contexts@[i] as int)
                < self.contexts@.len() && !self.contexts@[self.free_contexts@[i] as int].live)
        &&& (forall|i: int, j: int|
            0 <= i < j < self.free_contexts@.len() ==> self.free_contexts@[i]
                != self.free_contexts@[j])
        &&& (forall|h: usize|
            h < self.contexts@.len() && !(#[trigger] self.contexts@[h as int]).live
                ==> self.free_contexts@.contains(h))
        // Holder accounting: the tree counts exactly the holding contexts.
        &&& self.extents.total_holders() == self.held().len()
        &&& self.held().finite()
    }

    /// Chain integrity: at every instant the holder chains form a forest of
    /// well-formed doubly-linked lists — every member is a live context
    /// holding this chain's leaf, the head carries no back link, every other
    /// member's back link names its predecessor, every forward link names the
    /// successor (and the tail none), and no context appears twice.
    pub proof fn lemma_chain_integrity(&self)
        requires
            self.wf(),
        ensures
            forall|k: u64, i: int|
                #![trigger self.chains()[k][i]]
                self.chains().dom().contains(k) && 0 <= i < self.chains()[k].len() ==> {
                    let c = self.chains()[k];
                    &&& self.ctx_live(c[i] as int)
                    &&& self.ctx_extent(c[i] as int) == Some(k)
                    &&& self.ctx_prev(c[i] as int) == (if i == 0 {
                        None
                    } else {
                        Some(c[i - 1])
                    })
                    &&& self.ctx_next(c[i] as int) == (if i == c.len() - 1 {
                        None
                    } else {
                        Some(c[i + 1])
                    })
                    &&& forall|j: int| 0 <= j < c.len() && j != i ==> c[j] != c[i]
                },
    {
        assert forall|k: u64, i: int|
            #![trigger self.chains()[k][i]]
            self.chains().dom().contains(k) && 0 <= i < self.chains()[k].len() implies {
            let c = self.chains()[k];
            &&& self.ctx_live(c[i] as int)
            &&& self.ctx_extent(c[i] as int) == Some(k)
            &&& self.ctx_prev(c[i] as int) == (if i == 0 {
                None
            } else {
                Some(c[i - 1])
            })
            &&& self.ctx_next(c[i] as int) == (if i == c.len() - 1 {
                None
            } else {
                Some(c[i + 1])
            })
            &&& forall|j: int| 0 <= j < c.len() && j != i ==> c[j] != c[i]
        } by {
            assert(self.chain_ok(k));
        }
    }

    /// Leaf accounting: a leaf's holder count equals the number of contexts
    /// on the chain keyed by its `begin`, and a leaf with no chain has no
    /// holders.  (Within the tree, every internal node's holder count is the
    /// sum of its children's: [`Tree::lemma_holders_sum`].)
    pub proof fn lemma_leaf_accounting(&self)
        requires
            self.wf(),
        ensures
            forall|k: u64| #[trigger]
                self.chains().dom().contains(k) ==> self.leaves().dom().contains(k)
                    && self.leaves()[k].holders == self.chains()[k].len(),
            forall|k: u64| #[trigger]
                self.leaves().dom().contains(k) && !self.chains().dom().contains(k)
                    ==> self.leaves()[k].holders == 0,
    {
    }

    /// A live handle indexes into the context slab.
    pub proof fn lemma_live_in_range(&self, h: usize)
        requires
            self.ctx_live(h as int),
        ensures
            (h as int) < self.nr_contexts(),
    {
    }

    /// A live context that holds an extent sits on that extent's chain.
    pub proof fn lemma_holding_context_is_chained(&self, h: usize)
        requires
            self.wf(),
            self.ctx_live(h as int),
            self.ctx_extent(h as int) is Some,
        ensures
            self.chains().dom().contains(self.ctx_extent(h as int)->0),
            self.chains()[self.ctx_extent(h as int)->0].contains(h),
    {
    }

    /// Builds an allocator over `[0, nr_blocks)` whose tree may use up to
    /// `nr_nodes` pool slots.
    pub fn new(nr_blocks: u64, nr_nodes: u8) -> (a: Allocator)
        requires
            nr_nodes >= 1,
        ensures
            a.wf(),
            a.spec_nr_blocks() == nr_blocks,
            a.nr_contexts() == 0,
            a.chains() == Map::<u64, Seq<usize>>::empty(),
            a.leaves() == map![0u64 => LeafInfo { end: nr_blocks, cursor: 0u64, holders: 0nat }],
    {
        let extents = Tree::new(nr_blocks, nr_nodes);
        let a = Allocator {
            extents,
            holders: Vec::new(),
            contexts: Vec::new(),
            free_contexts: Vec::new(),
            chains: Ghost(Map::empty()),
        };
        proof {
            assert(a.held() =~= Set::<int>::empty());
        }
        a
    }

    /// The `begin` of the extent `context` currently holds, if any.
    pub fn context_extent(&self, context: usize) -> (r: Option<u64>)
        requires
            self.ctx_live(context as int),
        ensures
            r == self.ctx_extent(context as int),
    {
        self.contexts[context].extent
    }

    /// Whether any leaf currently has holders.
    pub fn has_holders(&self) -> (r: bool)
        requires
            self.wf(),
        ensures
            r <==> self.chains().dom() != Set::<u64>::empty(),
    {
        proof {
            if self.holders@.len() > 0 {
                assert(self.chains@.dom().contains(self.holders@[0].0));
            }
            if self.chains@.dom() != Set::<u64>::empty() {
                assert(exists|k: u64| #[trigger] self.chains@.dom().contains(k)) by {
                    if forall|k: u64| !(#[trigger] self.chains@.dom().contains(k)) {
                        assert(self.chains@.dom() =~= Set::<u64>::empty());
                    }
                }
                let k = choose|k: u64| #[trigger] self.chains@.dom().contains(k);
                let i = choose|i: int|
                    0 <= i < self.holders@.len() && (#[trigger] self.holders@[i]).0 == k;
            }
        }
        self.holders.len() > 0
    }

    /// The position of `k`'s entry in the holders vector, if it has one.
    fn find_holder(&self, k: u64) -> (r: Option<usize>)
        ensures
            match r {
                Some(i) => i < self.holders@.len() && self.holders@[i as int].0 == k,
                None => forall|j: int|
                    0 <= j < self.holders@.len() ==> (#[trigger] self.holders@[j]).0 != k,
            },
    {
        let mut i: usize = 0;
        while i < self.holders.len()
            invariant
                i <= self.holders@.len(),
                forall|j: int| 0 <= j < i ==> (#[trigger] self.holders@[j]).0 != k,
            decreases self.holders@.len() - i,
        {
            if self.holders[i].0 == k {
                return Some(i);
            }
            i += 1;
        }
        None
    }

    /// Hands out a fresh, empty context.
    pub fn get_context(&mut self) -> (h: usize)
        requires
            old(self).wf(),
        ensures
            final(self).wf(),
            final(self).ctx_live(h as int),
            final(self).ctx_extent(h as int) is None,
            final(self).ctx_prev(h as int) is None,
            final(self).ctx_next(h as int) is None,
            !old(self).ctx_live(h as int),
            h < final(self).nr_contexts(),
            final(self).nr_contexts() >= old(self).nr_contexts(),
            final(self).leaves() == old(self).leaves(),
            final(self).chains() == old(self).chains(),
            final(self).spec_nr_blocks() == old(self).spec_nr_blocks(),
            forall|g: int|
                0 <= g < old(self).nr_contexts() && g != h ==> final(self).ctx_live(g) == old(
                    self,
                ).ctx_live(g) && final(self).ctx_extent(g) == old(self).ctx_extent(g),
    {
        let fresh = AllocContext { extent: None, prev: None, next: None, live: true };
        let h: usize;
        match self.free_contexts.pop() {
            Some(slot) => {
                h = slot;
                self.contexts[h] = fresh;
            },
            None => {
                h = self.contexts.len();
                self.contexts.push(fresh);
            },
        }
        proof {
            assert(self.held() =~= old(self).held());
            assert forall|k: u64| #[trigger] self.chains@.dom().contains(k) implies self.chain_ok(
                k,
            ) by {
                let c = self.chains@[k];
                assert forall|i: int|
                    0 <= i < c.len() implies self.contexts@[#[trigger] c[i] as int] == old(
                    self,
                ).contexts@[c[i] as int] by {
                    assert(old(self).contexts@[c[i] as int].live);
                }
            }
            assert forall|k: u64| #[trigger] self.chains@.dom().contains(k) implies exists|i: int|
                0 <= i < self.holders@.len() && (#[trigger] self.holders@[i]).0 == k by {
                let i = choose|i: int|
                    0 <= i < old(self).holders@.len() && (#[trigger] old(self).holders@[i]).0 == k;
                assert(self.holders@[i].0 == k);
            }
            assert forall|g: usize|
                g < self.contexts@.len() && !(#[trigger] self.contexts@[g as int]).live implies
                self.free_contexts@.contains(g) by {
                assert(old(self).contexts@.len() <= self.contexts@.len());
                if g < old(self).contexts@.len() && g != h {
                    assert(old(self).free_contexts@.contains(g));
                    let i = choose|i: int|
                        0 <= i < old(self).free_contexts@.len() && old(self).free_contexts@[i]
                            == g;
                    if self.free_contexts@.len() < old(self).free_contexts@.len() {
                        assert(old(self).free_contexts@[old(self).free_contexts@.len() - 1] == h);
                        assert(i != old(self).free_contexts@.len() - 1);
                    }
                    assert(i < self.free_contexts@.len());
                    assert(self.free_contexts@[i] == g);
                }
            }
        }
        h
    }

    /// Re-establishes the invariant after context `h` has been unlinked from
    /// chain `k`, retired, and its borrow released.  `c2` is the chain without
    /// `h`; `hi` is the holders-vector entry that was removed (chain gone) or
    /// repointed (new head), or `-1` where the head was untouched.
    proof fn lemma_after_unlink(&self, old_a: Allocator, h: usize, k: u64, p: int, c2: Seq<usize>, hi: int)
        requires
            old_a.wf(),
            old_a.ctx_live(h as int),
            old_a.ctx_extent(h as int) == Some(k),
            // how the chain shrank
            0 <= p < old_a.chains()[k].len(),
            old_a.chains()[k][p] == h,
            c2 == old_a.chains()[k].remove(p),
            // the new state, piece by piece
            self.extents.wf(),
            self.extents.leaves() == release_result(old_a.extents.leaves(), k),
            self.extents.total_holders() == old_a.extents.total_holders() - 1,
            self.contexts@.len() == old_a.contexts@.len(),
            self.contexts@[h as int].extent is None,
            self.contexts@[h as int].prev is None,
            self.contexts@[h as int].next is None,
            !self.contexts@[h as int].live,
            forall|i: int|
                0 <= i < c2.len() ==> (#[trigger] self.contexts@[c2[i] as int]).live
                    && self.contexts@[c2[i] as int].extent == Some(k) && self.contexts@[c2[
                i
            ] as int].prev == (if i == 0 {
                    None
                } else {
                    Some(c2[i - 1])
                }) && self.contexts@[c2[i] as int].next == (if i == c2.len() - 1 {
                    None
                } else {
                    Some(c2[i + 1])
                }),
            forall|g: usize|
                g < self.contexts@.len() && g != h && !c2.contains(g) ==> self.contexts@[g as int]
                    == old_a.contexts@[g as int],
            self.free_contexts@ == old_a.free_contexts@.push(h),
            self.chains@ == (if c2.len() == 0 {
                old_a.chains().remove(k)
            } else {
                old_a.chains().insert(k, c2)
            }),
            (c2.len() == 0 ==> 0 <= hi < old_a.holders@.len() && old_a.holders@[hi].0 == k
                && self.holders@ == old_a.holders@.remove(hi)),
            (c2.len() > 0 && hi >= 0 ==> hi < old_a.holders@.len() && old_a.holders@[hi].0 == k
                && self.holders@ == old_a.holders@.update(hi, (k, c2[0]))),
            (c2.len() > 0 && hi < 0 ==> self.holders@ == old_a.holders@ && c2[0]
                == old_a.chains()[k][0]),
        ensures
            self.wf(),
            forall|g: usize| c2.contains(g) <==> old_a.chains()[k].contains(g) && g != h,
    {
        let c = old_a.chains()[k];
        assert(old_a.chain_ok(k));
        // Membership in the shrunk chain.
        assert forall|g: usize| c2.contains(g) implies c.contains(g) && g != h by {
            let i = choose|i: int| 0 <= i < c2.len() && c2[i] == g;
            if i < p {
                assert(c[i] == g);
            } else {
                assert(c[i + 1] == g);
            }
        }
        assert forall|g: usize| c.contains(g) && g != h implies c2.contains(g) by {
            let i = choose|i: int| 0 <= i < c.len() && c[i] == g;
            if i < p {
                assert(c2[i] == g);
            } else {
                assert(i > p);
                assert(c2[i - 1] == g);
            }
        }
        // The members of every other chain kept their extents, so they are
        // untouched and their chains stay intact.
        assert forall|k2: u64| #[trigger] self.chains@.dom().contains(k2) implies self.chain_ok(
            k2,
        ) by {
            if k2 != k {
                let o = old_a.chains()[k2];
                assert(old_a.chain_ok(k2));
                assert(self.chains@[k2] == o);
                assert forall|i: int|
                    0 <= i < o.len() implies self.contexts@[#[trigger] o[i] as int]
                    == old_a.contexts@[o[i] as int] by {
                    assert(old_a.contexts@[o[i] as int].extent == Some(k2));
                    if c2.contains(o[i]) {
                        assert(old_a.contexts@[o[i] as int].extent == Some(k));
                    }
                    assert(o[i] != h);
                }
            } else {
                assert(c2.len() > 0);
                assert(self.chains@[k2] == c2);
            }
        }
        // The holders vector still lists exactly the chain heads.
        if c2.len() == 0 {
            assert forall|i: int|
                0 <= i < self.holders@.len() implies self.chains@.dom().contains(
                (#[trigger] self.holders@[i]).0,
            ) && self.chains@[self.holders@[i].0][0] == self.holders@[i].1
                && self.holders@[i].1 < self.contexts@.len() by {
                if i < hi {
                    assert(self.holders@[i] == old_a.holders@[i]);
                    assert(old_a.holders@[i].0 != k);
                } else {
                    assert(self.holders@[i] == old_a.holders@[i + 1]);
                    assert(old_a.holders@[i + 1].0 != k);
                }
            }
            assert forall|k2: u64| #[trigger] self.chains@.dom().contains(k2) implies exists|i: int|
                0 <= i < self.holders@.len() && (#[trigger] self.holders@[i]).0 == k2 by {
                let i = choose|i: int|
                    0 <= i < old_a.holders@.len() && (#[trigger] old_a.holders@[i]).0 == k2;
                if i < hi {
                    assert(self.holders@[i].0 == k2);
                } else {
                    assert(i != hi);
                    assert(self.holders@[i - 1].0 == k2);
                }
            }
            assert forall|i: int, j: int|
                0 <= i < j < self.holders@.len() implies self.holders@[i].0 != self.holders@[j].0 by {
                let oi: int = if i < hi {
                    i
                } else {
                    i + 1
                };
                let oj: int = if j < hi {
                    j
                } else {
                    j + 1
                };
                assert(self.holders@[i].0 == old_a.holders@[oi].0);
                assert(self.holders@[j].0 == old_a.holders@[oj].0);
            }
        } else {
            assert forall|k2: u64| #[trigger] self.chains@.dom().contains(k2) implies exists|i: int|
                0 <= i < self.holders@.len() && (#[trigger] self.holders@[i]).0 == k2 by {
                let i = choose|i: int|
                    0 <= i < old_a.holders@.len() && (#[trigger] old_a.holders@[i]).0 == k2;
                assert(self.holders@[i].0 == k2);
            }
            if hi >= 0 {
                assert forall|i: int, j: int|
                    0 <= i < j < self.holders@.len() implies self.holders@[i].0
                    != self.holders@[j].0 by {
                    assert(self.holders@[i].0 == old_a.holders@[i].0);
                    assert(self.holders@[j].0 == old_a.holders@[j].0);
                }
            }
        }
        // Every holding context is on its chain.
        assert forall|g: usize|
            g < self.contexts@.len() && (#[trigger] self.contexts@[g as int]).live
                && self.contexts@[g as int].extent is Some implies self.chains@.dom().contains(
            self.contexts@[g as int].extent->0,
        ) && self.chains@[self.contexts@[g as int].extent->0].contains(g) by {
            if c2.contains(g) {
                let i = choose|i: int| 0 <= i < c2.len() && c2[i] == g;
                assert(self.contexts@[g as int].extent == Some(k));
            } else {
                assert(g != h);
                assert(self.contexts@[g as int] == old_a.contexts@[g as int]);
                let k2 = old_a.contexts@[g as int].extent->0;
                assert(old_a.chains().dom().contains(k2) && old_a.chains()[k2].contains(g));
                if k2 == k {
                    assert(c.contains(g) && g != h);
                    assert(c2.contains(g));
                }
            }
        }
        // Detached and dead contexts.
        assert forall|g: usize|
            g < self.contexts@.len() && g != h && !c2.contains(g) implies #[trigger] self.contexts@[g as int]
            == old_a.contexts@[g as int] by {}
        assert forall|g: usize|
            g < self.contexts@.len() && (#[trigger] self.contexts@[g as int]).live
                && self.contexts@[g as int].extent is None implies self.contexts@[g as int].prev is None
            && self.contexts@[g as int].next is None by {
            if c2.contains(g) {
                let i = choose|i: int| 0 <= i < c2.len() && c2[i] == g;
                assert(self.contexts@[c2[i] as int].extent == Some(k));
            }
        }
        assert forall|g: usize|
            g < self.contexts@.len() && !(#[trigger] self.contexts@[g as int]).live implies
            self.contexts@[g as int].extent is None && self.contexts@[g as int].prev is None
            && self.contexts@[g as int].next is None by {
            if c2.contains(g) {
                let i = choose|i: int| 0 <= i < c2.len() && c2[i] == g;
                assert(self.contexts@[c2[i] as int].live);
            }
        }
        // Free slots.
        assert(!old_a.free_contexts@.contains(h)) by {
            if old_a.free_contexts@.contains(h) {
                let i = choose|i: int|
                    0 <= i < old_a.free_contexts@.len() && old_a.free_contexts@[i] == h;
                assert(!old_a.contexts@[old_a.free_contexts@[i] as int].live);
            }
        }
        assert forall|g: usize|
            g < self.contexts@.len() && !(#[trigger] self.contexts@[g as int]).live implies
            self.free_contexts@.contains(g) by {
            if g != h {
                assert(!c2.contains(g));
                assert(self.contexts@[g as int] == old_a.contexts@[g as int]);
                assert(old_a.free_contexts@.contains(g));
                let i = choose|i: int|
                    0 <= i < old_a.free_contexts@.len() && old_a.free_contexts@[i] == g;
                assert(self.free_contexts@[i] == g);
            } else {
                assert(self.free_contexts@[self.free_contexts@.len() - 1] == h);
            }
        }
        // Chains and tree holder counts still agree.
        assert forall|k2: u64| #[trigger] self.chains@.dom().contains(k2) implies
            self.extents.leaves().dom().contains(k2) && self.extents.leaves()[k2].holders
                == self.chains@[k2].len() by {
            assert(old_a.extents.leaves().dom().contains(k2));
        }
        // Holder accounting.
        assert(old_a.held().contains(h as int));
        lemma_ctx_len_bound(&self.contexts);
        assert(self.held() =~= old_a.held().remove(h as int)) by {
            assert forall|g: int| self.held().contains(g) implies old_a.held().remove(
                h as int,
            ).contains(g) by {
                if !c2.contains(g as usize) {
                    assert(self.contexts@[g] == old_a.contexts@[g]);
                } else {
                    assert(old_a.contexts@[g].extent == Some(k));
                    assert(old_a.contexts@[g].live);
                }
            }
            assert forall|g: int| old_a.held().remove(h as int).contains(g) implies
                self.held().contains(g) by {
                if !c2.contains(g as usize) {
                    assert(self.contexts@[g] == old_a.contexts@[g]);
                }
            }
        }
        assert(old_a.held().remove(h as int).len() == old_a.held().len() - 1);
    }

    /// Moving one leaf's cursor — without touching holder counts, contexts or
    /// chains — preserves the invariant.
    proof fn lemma_after_advance(&self, a0: Allocator, k: u64, cur: u64)
        requires
            a0.wf(),
            a0.leaves().dom().contains(k),
            self.extents.wf(),
            self.extents.leaves() == a0.leaves().insert(
                k,
                LeafInfo {
                    end: a0.leaves()[k].end,
                    cursor: cur,
                    holders: a0.leaves()[k].holders,
                },
            ),
            self.extents.total_holders() == a0.extents.total_holders(),
            self.contexts@ == a0.contexts@,
            self.holders@ == a0.holders@,
            self.free_contexts@ == a0.free_contexts@,
            self.chains@ == a0.chains@,
        ensures
            self.wf(),
    {
        assert(self.extents.leaves().dom() =~= a0.leaves().dom());
        assert forall|k2: u64| #[trigger] self.chains@.dom().contains(k2) implies self.chain_ok(
            k2,
        ) by {
            assert(a0.chain_ok(k2));
        }
        assert(self.held() =~= a0.held());
    }

    /// Re-establishes the invariant after a borrow whose leaf already had
    /// holders: `context` was pushed onto the head of the existing chain `c`
    /// of leaf `b`, whose holder count the borrow had just incremented.
    proof fn lemma_after_attach(
        &self,
        pre: Allocator,
        mid: Allocator,
        context: usize,
        b: u64,
        c: Seq<usize>,
        hi: int,
    )
        requires
            pre.wf(),
            pre.ctx_live(context as int),
            pre.ctx_extent(context as int) is None,
            pre.chains@.dom().contains(b),
            c == pre.chains@[b],
            // what the borrow did to the tree
            mid.extents.wf(),
            mid.extents.leaves().dom().contains(b),
            forall|k2: u64| #[trigger]
                pre.leaves().dom().contains(k2) ==> mid.extents.leaves().dom().contains(k2)
                    && mid.extents.leaves()[k2].cursor == pre.leaves()[k2].cursor
                    && mid.extents.leaves()[k2].holders == pre.leaves()[k2].holders + (
                if k2 == b {
                    1nat
                } else {
                    0nat
                }),
            forall|k2: u64| #[trigger]
                mid.extents.leaves().dom().contains(k2) && !pre.leaves().dom().contains(k2)
                    ==> mid.extents.leaves()[k2].holders == (if k2 == b {
                    1nat
                } else {
                    0nat
                }),
            mid.extents.total_holders() == pre.extents.total_holders() + 1,
            // the attach itself
            self.extents == mid.extents,
            0 <= hi < pre.holders@.len(),
            pre.holders@[hi].0 == b,
            self.holders@ == pre.holders@.update(hi, (b, context)),
            self.free_contexts@ == pre.free_contexts@,
            self.chains@ == pre.chains@.insert(b, seq![context].add(c)),
            self.contexts@ == pre.contexts@.update(
                context as int,
                AllocContext { extent: Some(b), prev: None, next: Some(c[0]), live: true },
            ).update(
                c[0] as int,
                AllocContext {
                    extent: pre.contexts@[c[0] as int].extent,
                    prev: Some(context),
                    next: pre.contexts@[c[0] as int].next,
                    live: pre.contexts@[c[0] as int].live,
                },
            ),
        ensures
            self.wf(),
    {
        assert(pre.chain_ok(b));
        let c2 = seq![context].add(c);
        assert(c.len() >= 1);
        assert(!c.contains(context)) by {
            if c.contains(context) {
                let q = choose|q: int| 0 <= q < c.len() && c[q] == context;
                assert(pre.contexts@[c[q] as int].extent == Some(b));
            }
        }
        assert(c[0] != context);
        // The extended chain is well-formed.
        assert(self.chain_ok(b)) by {
            assert forall|i: int| 0 <= i < c2.len() implies (#[trigger] c2[i] as int)
                < self.contexts@.len() && self.contexts@[c2[i] as int].live && self.contexts@[c2[
                i
            ] as int].extent == Some(b) && self.contexts@[c2[i] as int].prev == (if i == 0 {
                None
            } else {
                Some(c2[i - 1])
            }) && self.contexts@[c2[i] as int].next == (if i == c2.len() - 1 {
                None
            } else {
                Some(c2[i + 1])
            }) by {
                if i >= 2 {
                    assert(c2[i] == c[i - 1]);
                    assert(c[i - 1] != context && c[i - 1] != c[0]);
                    assert(self.contexts@[c2[i] as int] == pre.contexts@[c[i - 1] as int]);
                }
            }
            assert forall|i: int, j: int| 0 <= i < j < c2.len() implies c2[i] != c2[j] by {
                if i >= 1 {
                    assert(c2[i] == c[i - 1] && c2[j] == c[j - 1]);
                }
            }
        }
        // The other chains are untouched.
        assert forall|k2: u64| #[trigger] self.chains@.dom().contains(k2) implies self.chain_ok(
            k2,
        ) by {
            if k2 != b {
                let o = pre.chains@[k2];
                assert(pre.chain_ok(k2));
                assert(self.chains@[k2] == o);
                assert forall|i: int|
                    0 <= i < o.len() implies self.contexts@[#[trigger] o[i] as int]
                    == pre.contexts@[o[i] as int] by {
                    assert(pre.contexts@[o[i] as int].extent == Some(k2));
                    assert(o[i] != context && o[i] != c[0]);
                }
            }
        }
        // The holders vector still lists the chain heads.
        assert forall|k2: u64| #[trigger] self.chains@.dom().contains(k2) implies exists|i: int|
            0 <= i < self.holders@.len() && (#[trigger] self.holders@[i]).0 == k2 by {
            let i = choose|i: int|
                0 <= i < pre.holders@.len() && (#[trigger] pre.holders@[i]).0 == k2;
            if i == hi {
                assert(self.holders@[hi].0 == k2);
            } else {
                assert(self.holders@[i].0 == k2);
            }
        }
        // Chains and tree holder counts agree.
        assert forall|k2: u64| #[trigger] self.chains@.dom().contains(k2) implies
            self.extents.leaves().dom().contains(k2) && self.extents.leaves()[k2].holders
                == self.chains@[k2].len() by {
            assert(pre.leaves().dom().contains(k2));
        }
        assert forall|k2: u64|
            #![trigger self.extents.leaves().dom().contains(k2)]
            self.extents.leaves().dom().contains(k2) && !self.chains@.dom().contains(k2) implies
            self.extents.leaves()[k2].holders == 0 by {
            assert(k2 != b);
            if pre.leaves().dom().contains(k2) {
                assert(!pre.chains@.dom().contains(k2));
            }
        }
        // Every holding context is on its chain.
        assert forall|g: usize|
            g < self.contexts@.len() && (#[trigger] self.contexts@[g as int]).live
                && self.contexts@[g as int].extent is Some implies self.chains@.dom().contains(
            self.contexts@[g as int].extent->0,
        ) && self.chains@[self.contexts@[g as int].extent->0].contains(g) by {
            if g == context {
                assert(c2[0] == context);
            } else if g == c[0] {
                assert(c2[1] == c[0]);
            } else {
                assert(self.contexts@[g as int] == pre.contexts@[g as int]);
                let k2 = pre.contexts@[g as int].extent->0;
                assert(pre.chains@.dom().contains(k2) && pre.chains@[k2].contains(g));
                if k2 == b {
                    let q = choose|q: int| 0 <= q < c.len() && c[q] == g;
                    assert(c2[q + 1] == g);
                } else {
                    assert(self.chains@[k2] == pre.chains@[k2]);
                }
            }
        }
        // Holder accounting.
        assert(self.held() =~= pre.held().insert(context as int));
        assert(!pre.held().contains(context as int));
        assert(pre.held().insert(context as int).len() == pre.held().len() + 1);
    }

    /// Re-establishes the invariant after a borrow of a leaf nobody held:
    /// `context` starts a fresh one-element chain for leaf `b`.
    proof fn lemma_after_attach_fresh(&self, pre: Allocator, mid: Allocator, context: usize, b: u64)
        requires
            pre.wf(),
            pre.ctx_live(context as int),
            pre.ctx_extent(context as int) is None,
            !pre.chains@.dom().contains(b),
            mid.extents.wf(),
            mid.extents.leaves().dom().contains(b),
            forall|k2: u64| #[trigger]
                pre.leaves().dom().contains(k2) ==> mid.extents.leaves().dom().contains(k2)
                    && mid.extents.leaves()[k2].cursor == pre.leaves()[k2].cursor
                    && mid.extents.leaves()[k2].holders == pre.leaves()[k2].holders + (
                if k2 == b {
                    1nat
                } else {
                    0nat
                }),
            forall|k2: u64| #[trigger]
                mid.extents.leaves().dom().contains(k2) && !pre.leaves().dom().contains(k2)
                    ==> mid.extents.leaves()[k2].holders == (if k2 == b {
                    1nat
                } else {
                    0nat
                }),
            mid.extents.total_holders() == pre.extents.total_holders() + 1,
            self.extents == mid.extents,
            forall|j: int| 0 <= j < pre.holders@.len() ==> (#[trigger] pre.holders@[j]).0 != b,
            self.holders@ == pre.holders@.push((b, context)),
            self.free_contexts@ == pre.free_contexts@,
            self.chains@ == pre.chains@.insert(b, seq![context]),
            self.contexts@ == pre.contexts@.update(
                context as int,
                AllocContext { extent: Some(b), prev: None, next: None, live: true },
            ),
        ensures
            self.wf(),
    {
        let c2 = seq![context];
        assert(self.chain_ok(b)) by {
            assert(c2[0] == context);
            assert(self.contexts@[context as int].extent == Some(b));
        }
        assert forall|k2: u64| #[trigger] self.chains@.dom().contains(k2) implies self.chain_ok(
            k2,
        ) by {
            if k2 != b {
                let o = pre.chains@[k2];
                assert(pre.chain_ok(k2));
                assert(self.chains@[k2] == o);
                assert forall|i: int|
                    0 <= i < o.len() implies self.contexts@[#[trigger] o[i] as int]
                    == pre.contexts@[o[i] as int] by {
                    assert(pre.contexts@[o[i] as int].extent == Some(k2));
                    assert(o[i] != context);
                }
            }
        }
        assert forall|i: int|
            0 <= i < self.holders@.len() implies self.chains@.dom().contains(
            (#[trigger] self.holders@[i]).0,
        ) && self.chains@[self.holders@[i].0][0] == self.holders@[i].1 && self.holders@[i].1
            < self.contexts@.len() by {
            if i < pre.holders@.len() {
                assert(self.holders@[i] == pre.holders@[i]);
                assert(pre.holders@[i].0 != b);
            } else {
                assert(self.holders@[i] == (b, context));
            }
        }
        assert forall|k2: u64| #[trigger] self.chains@.dom().contains(k2) implies exists|i: int|
            0 <= i < self.holders@.len() && (#[trigger] self.holders@[i]).0 == k2 by {
            if k2 == b {
                assert(self.holders@[self.holders@.len() - 1].0 == b);
            } else {
                let i = choose|i: int|
                    0 <= i < pre.holders@.len() && (#[trigger] pre.holders@[i]).0 == k2;
                assert(self.holders@[i].0 == k2);
            }
        }
        assert forall|i: int, j: int|
            0 <= i < j < self.holders@.len() implies self.holders@[i].0 != self.holders@[j].0 by {
            if j == self.holders@.len() - 1 {
                assert(pre.holders@[i].0 != b);
            }
        }
        assert forall|k2: u64| #[trigger] self.chains@.dom().contains(k2) implies
            self.extents.leaves().dom().contains(k2) && self.extents.leaves()[k2].holders
                == self.chains@[k2].len() by {
            if k2 != b {
                assert(pre.leaves().dom().contains(k2));
            } else {
                if pre.leaves().dom().contains(b) {
                    assert(pre.leaves()[b].holders == 0);
                }
            }
        }
        assert forall|k2: u64|
            #![trigger self.extents.leaves().dom().contains(k2)]
            self.extents.leaves().dom().contains(k2) && !self.chains@.dom().contains(k2) implies
            self.extents.leaves()[k2].holders == 0 by {
            assert(k2 != b);
            if pre.leaves().dom().contains(k2) {
                assert(!pre.chains@.dom().contains(k2));
            }
        }
        assert forall|g: usize|
            g < self.contexts@.len() && (#[trigger] self.contexts@[g as int]).live
                && self.contexts@[g as int].extent is Some implies self.chains@.dom().contains(
            self.contexts@[g as int].extent->0,
        ) && self.chains@[self.contexts@[g as int].extent->0].contains(g) by {
            if g == context {
                assert(c2[0] == context);
            } else {
                assert(self.contexts@[g as int] == pre.contexts@[g as int]);
                let k2 = pre.contexts@[g as int].extent->0;
                assert(pre.chains@.dom().contains(k2) && pre.chains@[k2].contains(g));
                assert(k2 != b);
                assert(self.chains@[k2] == pre.chains@[k2]);
            }
        }
        assert(self.held() =~= pre.held().insert(context as int));
        assert(!pre.held().contains(context as int));
        assert(pre.held().insert(context as int).len() == pre.held().len() + 1);
    }

    /// Allocates one block on behalf of `context`.
    ///
    /// The tree hands the context a private run of blocks; the `oracle` owns
    /// the real occupancy and picks the concrete block inside that run.  A
    /// successful answer `Ok(Some(b))` marks exactly the block `b`, which was
    /// free in the oracle, as allocated — never touching any other block.
    /// If the extent still has room, the context keeps it with its cursor
    /// just past `b` and stays on its chain (a fresh borrow puts it at the
    /// head); if `b` drained the extent, the leaf is released and pruned and
    /// every holder of it — this context and all its peers — is invalidated:
    /// extent forgotten, chain links cleared.  `Ok(None)` comes exactly when
    /// the tree runs out of leaves, and then every block the old leaves still
    /// hinted at was already allocated in the oracle.  An oracle error is
    /// propagated with nothing allocated and the extent retained.
    #[verifier::rlimit(100)]
    pub fn allocate<O: Oracle>(&mut self, context: usize, oracle: &mut O) -> (r: Result<
        Option<u64>,
        O::Error,
    >)
        requires
            old(self).wf(),
            old(self).ctx_live(context as int),
        ensures
            final(self).wf(),
            final(self).ctx_live(context as int),
            final(self).nr_contexts() == old(self).nr_contexts(),
            final(self).spec_nr_blocks() == old(self).spec_nr_blocks(),
            // an empty tree can only answer "out of space"
            old(self).leaves().dom() == Set::<u64>::empty() ==> r matches Ok(None),
            // another context's extent changes only by invalidation, which
            // detaches it from its chain
            forall|g: usize|
                (g as int) < old(self).nr_contexts() && g != context ==> final(self).ctx_live(
                    g as int,
                ) == old(self).ctx_live(g as int) && (final(self).ctx_extent(g as int) == old(
                    self,
                ).ctx_extent(g as int) || (old(self).ctx_extent(g as int) is Some && final(self).ctx_extent(g as int) is None && final(self).ctx_prev(g as int) is None && final(self).ctx_next(g as int) is None)),
            // invalidation is a push: once the caller's entry extent is gone,
            // every peer that held the same leaf has forgotten it too
            old(self).ctx_extent(context as int) matches Some(k0) ==> final(self).ctx_extent(
                context as int,
            ) == Some(k0) || (forall|g: usize|
                (g as int) < old(self).nr_contexts() && g != context && old(self).ctx_extent(
                    g as int,
                ) == Some(k0) ==> final(self).ctx_extent(g as int) is None && final(self).ctx_prev(
                    g as int,
                ) is None && final(self).ctx_next(g as int) is None),
            match r {
                Ok(Some(b)) => {
                    &&& b < final(self).spec_nr_blocks()
                    &&& !old(oracle).allocated().contains(b)
                    &&& final(oracle).allocated() == old(oracle).allocated().insert(b)
                    // per-context monotonicity: while the context keeps one
                    // extent, blocks only move forward
                    &&& (old(self).ctx_extent(context as int) matches Some(k0) ==> b >= old(
                        self,
                    ).leaves()[k0].cursor || (forall|x: u64|
                        old(self).leaves()[k0].cursor <= x < old(self).leaves()[k0].end ==> old(
                            oracle,
                        ).allocated().contains(x)))
                    // blocks a leaf hinted at stay hinted, except what the
                    // serving extent's cursor advanced over
                    &&& (forall|k2: u64, x: u64| #[trigger]
                        leaf_covers(old(self).leaves(), k2, x) ==> old(
                            oracle,
                        ).allocated().contains(x) || (exists|k3: u64|
                            #[trigger] leaf_covers(final(self).leaves(), k3, x)) || (match final(self).ctx_extent(context as int) {
                            Some(k) => k <= x <= b,
                            None => x <= b,
                        }))
                    &&& match final(self).ctx_extent(context as int) {
                        Some(k) => {
                            // the extent is retained: it has room past b, the
                            // cursor resumes there, and the context sits on
                            // its chain — at the head when freshly borrowed
                            &&& final(self).leaves().dom().contains(k)
                            &&& final(self).leaves()[k].cursor == b + 1
                            &&& k <= b
                            &&& b + 1 < final(self).leaves()[k].end
                            &&& final(self).chains().dom().contains(k)
                            &&& final(self).chains()[k].contains(context)
                            &&& ((old(self).ctx_extent(context as int) == Some(k) && final(self).chains()[k] == old(self).chains()[k]) || (old(
                                self,
                            ).chains().dom().contains(k) && final(self).chains()[k] == seq![
                                context
                            ].add(old(self).chains()[k])) || final(self).chains()[k] == seq![
                                context
                            ])
                        },
                        None => {
                            // b drained the extent: the leaf was pruned, so no
                            // live leaf spans b any more, and every holder was
                            // invalidated, this context included
                            &&& (forall|k2: u64| #[trigger]
                                final(self).leaves().dom().contains(k2) ==> !(k2 <= b < final(self).leaves()[k2].end))
                            &&& final(self).ctx_prev(context as int) is None
                            &&& final(self).ctx_next(context as int) is None
                        },
                    }
                },
                Ok(None) => {
                    &&& final(self).leaves().dom() == Set::<u64>::empty()
                    &&& final(self).ctx_extent(context as int) is None
                    &&& final(oracle).allocated() == old(oracle).allocated()
                    // out of space is honest: every block the old leaves still
                    // hinted at was already allocated in the oracle
                    &&& (forall|k: u64, x: u64| #[trigger]
                        leaf_covers(old(self).leaves(), k, x) ==> old(
                            oracle,
                        ).allocated().contains(x))
                },
                Err(_) => {
                    &&& final(oracle).allocated() == old(oracle).allocated()
                    &&& final(self).ctx_extent(context as int) is Some
                    // a held extent is retained untouched, unless its range
                    // was found exhausted first
                    &&& (old(self).ctx_extent(context as int) matches Some(k0) ==> (final(self).ctx_extent(context as int) == Some(k0) && final(self).leaves() == old(
                        self,
                    ).leaves() && final(self).chains() == old(self).chains()) || (forall|x: u64|
                        old(self).leaves()[k0].cursor <= x < old(self).leaves()[k0].end ==> old(
                            oracle,
                        ).allocated().contains(x)))
                },
            },
    {
        loop
            invariant
                self.wf(),
                self.ctx_live(context as int),
                self.nr_contexts() == old(self).nr_contexts(),
                self.spec_nr_blocks() == old(self).spec_nr_blocks(),
                oracle.allocated() == old(oracle).allocated(),
                // the entry extent is untouched, or its range was exhausted
                // and every peer that held it has been invalidated
                match old(self).ctx_extent(context as int) {
                    Some(k0) => (self.ctx_extent(context as int) == Some(k0) && self.leaves()
                        == old(self).leaves() && self.chains() == old(self).chains()
                        && self.contexts@ == old(self).contexts@) || ((forall|x: u64|
                        old(self).leaves()[k0].cursor <= x < old(self).leaves()[k0].end ==> old(
                            oracle,
                        ).allocated().contains(x)) && (forall|g: usize|
                        (g as int) < old(self).nr_contexts() && g != context && old(
                            self,
                        ).ctx_extent(g as int) == Some(k0) ==> self.ctx_extent(g as int) is None
                            && self.ctx_prev(g as int) is None && self.ctx_next(g as int)
                            is None)),
                    None => true,
                },
                // chains other than the caller's are entry chains, untouched
                forall|k2: u64| #[trigger]
                    self.chains().dom().contains(k2) && self.ctx_extent(context as int) != Some(
                        k2,
                    ) ==> old(self).chains().dom().contains(k2) && self.chains()[k2] == old(
                        self,
                    ).chains()[k2],
                // a held extent's chain is the entry chain, or the caller
                // prepended to one, or the caller founded it
                (self.ctx_extent(context as int) matches Some(kc)
                    ==> self.chains().dom().contains(kc) && ((old(self).ctx_extent(context as int)
                    == Some(kc) && self.chains()[kc] == old(self).chains()[kc]) || (old(
                    self,
                ).chains().dom().contains(kc) && self.chains()[kc] == seq![context].add(
                    old(self).chains()[kc],
                )) || self.chains()[kc] == seq![context])),
                // other contexts: untouched, or invalidated and detached
                forall|g: usize|
                    (g as int) < old(self).nr_contexts() && g != context ==> self.ctx_live(
                        g as int,
                    ) == old(self).ctx_live(g as int) && (self.ctx_extent(g as int) == old(
                        self,
                    ).ctx_extent(g as int) || (old(self).ctx_extent(g as int) is Some
                        && self.ctx_extent(g as int) is None && self.ctx_prev(g as int) is None
                        && self.ctx_next(g as int) is None)),
                // every block an entry leaf hinted is allocated or still hinted
                forall|k: u64, x: u64| #[trigger]
                    leaf_covers(old(self).leaves(), k, x) ==> old(oracle).allocated().contains(x)
                        || (exists|k2: u64| #[trigger] leaf_covers(self.leaves(), k2, x)),
                old(self).leaves().dom() == Set::<u64>::empty() ==> self.leaves().dom() == Set::<
                    u64,
                >::empty() && self.ctx_extent(context as int) is None,
            decreases self.total_capacity(), self.live_count(),
        {
            let ghost pre = *self;
            let k: u64;
            match self.contexts[context].extent {
                Some(cur) => {
                    k = cur;
                },
                None => {
                    proof {
                        // The borrowing context holds nothing, so the tree's
                        // holder total has room for one more.
                        lemma_ctx_len_bound(&self.contexts);
                        let n = self.contexts@.len() as int;
                        let rng = set_int_range(0, n).remove(context as int);
                        vstd::set_lib::lemma_int_range(0, n);
                        assert forall|g: int| self.held().contains(g) implies rng.contains(g) by {}
                        vstd::set_lib::lemma_len_subset(self.held(), rng);
                        assert(set_int_range(0, n).contains(context as int));
                        assert(rng.len() == n - 1);
                    }
                    match self.extents.borrow() {
                        None => {
                            proof {
                                assert(self.leaves().dom() =~= Set::<u64>::empty());
                                assert forall|k2: u64, x: u64| #[trigger] leaf_covers(
                                    old(self).leaves(),
                                    k2,
                                    x,
                                ) implies old(oracle).allocated().contains(x) by {
                                    if !old(oracle).allocated().contains(x) {
                                        let k3 = choose|k3: u64| #[trigger] leaf_covers(
                                            self.leaves(),
                                            k3,
                                            x,
                                        );
                                        assert(self.leaves().dom().contains(k3));
                                    }
                                }
                            }
                            return Ok(None);
                        },
                        Some(b) => {
                            k = b;
                            let ghost mid = *self;
                            // Put this context at the head of the chain of
                            // the leaf it now holds.
                            match self.find_holder(b) {
                                Some(i) => {
                                    let head = self.holders[i].1;
                                    proof {
                                        assert(pre.chains@.dom().contains(b));
                                        assert(pre.chain_ok(b));
                                        assert(head == pre.chains@[b][0]);
                                        assert(pre.contexts@[head as int].extent == Some(b));
                                        assert(head != context);
                                    }
                                    self.contexts[context] = AllocContext {
                                        extent: Some(b),
                                        prev: None,
                                        next: Some(head),
                                        live: true,
                                    };
                                    let hd = self.contexts[head];
                                    self.contexts[head] = AllocContext {
                                        extent: hd.extent,
                                        prev: Some(context),
                                        next: hd.next,
                                        live: hd.live,
                                    };
                                    self.holders[i] = (b, context);
                                    proof {
                                        let c = pre.chains@[b];
                                        let c2 = seq![context].add(c);
                                        self.chains@ = self.chains@.insert(b, c2);
                                        self.lemma_after_attach(pre, mid, context, b, c, i as int);
                                        assert(self.chains@[b][0] == context);
                                        // the chain we prepended to is the
                                        // entry chain of this leaf
                                        assert(pre.chains().dom().contains(b));
                                        assert(pre.ctx_extent(context as int) is None);
                                        assert(old(self).chains().dom().contains(b) && c == old(
                                            self,
                                        ).chains()[b]);
                                        assert forall|k2: u64| #[trigger]
                                            self.chains@.dom().contains(k2) && k2 != b implies old(
                                            self,
                                        ).chains().dom().contains(k2) && self.chains@[k2] == old(
                                            self,
                                        ).chains()[k2] by {
                                            assert(pre.chains().dom().contains(k2));
                                        }
                                    }
                                },
                                None => {
                                    self.contexts[context] = AllocContext {
                                        extent: Some(b),
                                        prev: None,
                                        next: None,
                                        live: true,
                                    };
                                    self.holders.push((b, context));
                                    proof {
                                        let c2 = seq![context];
                                        self.chains@ = self.chains@.insert(b, c2);
                                        self.lemma_after_attach_fresh(pre, mid, context, b);
                                        assert(self.chains@[b][0] == context);
                                        assert(self.chains@[b] =~= seq![context]);
                                        assert forall|k2: u64| #[trigger]
                                            self.chains@.dom().contains(k2) && k2 != b implies old(
                                            self,
                                        ).chains().dom().contains(k2) && self.chains@[k2] == old(
                                            self,
                                        ).chains()[k2] by {
                                            assert(pre.chains().dom().contains(k2));
                                        }
                                    }
                                },
                            }
                            proof {
                                // Borrowing touched neither the other
                                // contexts nor a hinted block's coverage.
                                assert forall|g: usize|
                                    (g as int) < old(self).nr_contexts() && g != context implies
                                    self.ctx_live(g as int) == old(self).ctx_live(g as int) && (
                                self.ctx_extent(g as int) == old(self).ctx_extent(g as int) || (old(
                                    self,
                                ).ctx_extent(g as int) is Some && self.ctx_extent(g as int) is None
                                    && self.ctx_prev(g as int) is None && self.ctx_next(g as int)
                                    is None)) by {
                                    assert(pre.ctx_live(g as int) == old(self).ctx_live(g as int));
                                    if self.contexts@[g as int] != pre.contexts@[g as int] {
                                        assert(self.ctx_extent(g as int) == pre.ctx_extent(
                                            g as int,
                                        ));
                                    }
                                }
                                assert forall|k2: u64, x: u64| #[trigger] leaf_covers(
                                    old(self).leaves(),
                                    k2,
                                    x,
                                ) implies old(oracle).allocated().contains(x) || (exists|k3: u64|
                                    #[trigger] leaf_covers(self.leaves(), k3, x)) by {
                                    if !old(oracle).allocated().contains(x) {
                                        let k3 = choose|k3: u64| #[trigger] leaf_covers(
                                            pre.leaves(),
                                            k3,
                                            x,
                                        );
                                        assert(leaf_covers(pre.extents.leaves(), k3, x));
                                        let k4 = choose|k4: u64| #[trigger] leaf_covers(
                                            self.extents.leaves(),
                                            k4,
                                            x,
                                        );
                                        assert(leaf_covers(self.leaves(), k4, x));
                                    }
                                }
                            }
                        },
                    }
                },
            }
            proof {
                assert(self.ctx_extent(context as int) == Some(k));
                assert(self.chains@.dom().contains(k));
                assert(self.leaves().dom().contains(k));
                self.extents.lemma_leaves_wf();
                assert(self.total_capacity() == pre.total_capacity());
                assert(self.leaves()[k].cursor == self.leaves()[k].end ==> self.live_count()
                    == pre.live_count());
            }
            let e = self.extents.read_extent(k);
            let ghost before_adv = *self;
            match oracle.alloc_block(e.cursor, e.end) {
                Ok(Some(b)) => {
                    self.extents.advance_cursor(k, b + 1);
                    proof {
                        self.lemma_after_advance(before_adv, k, (b + 1) as u64);
                    }
                    proof {
                        // Coverage: what the old leaves hinted is allocated,
                        // still hinted, or inside the range the cursor of the
                        // serving leaf just passed over.
                        assert forall|k2: u64, x: u64| #[trigger] leaf_covers(
                            old(self).leaves(),
                            k2,
                            x,
                        ) implies old(oracle).allocated().contains(x) || (exists|k3: u64|
                            #[trigger] leaf_covers(self.leaves(), k3, x)) || (k <= x <= b) by {
                            if !old(oracle).allocated().contains(x) {
                                let k3 = choose|k3: u64| #[trigger] leaf_covers(
                                    pre.leaves(),
                                    k3,
                                    x,
                                );
                                assert(leaf_covers(pre.extents.leaves(), k3, x));
                                assert(exists|k4: u64| #[trigger] leaf_covers(
                                    before_adv.extents.leaves(),
                                    k4,
                                    x,
                                ));
                                let k4 = choose|k4: u64| #[trigger] leaf_covers(
                                    before_adv.extents.leaves(),
                                    k4,
                                    x,
                                );
                                if k4 == k {
                                    assert(e.cursor <= x < e.end);
                                    assert(k <= e.cursor);
                                    if x > b {
                                        assert(leaf_covers(self.leaves(), k, x));
                                    }
                                } else {
                                    assert(leaf_covers(self.leaves(), k4, x));
                                }
                            }
                        }
                    }
                    if b + 1 == e.end {
                        proof {
                            self.lemma_holding_context_is_chained(context);
                            self.extents.lemma_leaves_disjoint();
                        }
                        let ghost pre_r = *self;
                        self.reset_and_release(k);
                        proof {
                            // The pruned leaf was the only one spanning b.
                            assert forall|k2: u64| #[trigger] self.leaves().dom().contains(
                                k2,
                            ) implies !(k2 <= b < self.leaves()[k2].end) by {
                                assert(pre_r.leaves().dom().contains(k2) && k2 != k);
                                assert(self.leaves()[k2] == pre_r.leaves()[k2]);
                                if k2 < k {
                                    assert(pre_r.leaves()[k2].end <= k);
                                } else {
                                    assert(pre_r.leaves()[k].end <= k2);
                                }
                            }
                            assert forall|g: usize|
                                (g as int) < old(self).nr_contexts() && g != context implies
                                self.ctx_live(g as int) == old(self).ctx_live(g as int) && (
                            self.ctx_extent(g as int) == old(self).ctx_extent(g as int) || (old(
                                self,
                            ).ctx_extent(g as int) is Some && self.ctx_extent(g as int) is None
                                && self.ctx_prev(g as int) is None && self.ctx_next(g as int)
                                is None)) by {
                                if pre_r.chains()[k].contains(g) {
                                    assert(pre_r.ctx_extent(g as int) == Some(k));
                                }
                            }
                            // pruning k keeps every other hint alive
                            assert forall|k2: u64, x: u64| #[trigger] leaf_covers(
                                old(self).leaves(),
                                k2,
                                x,
                            ) implies old(oracle).allocated().contains(x) || (exists|k3: u64|
                                #[trigger] leaf_covers(self.leaves(), k3, x)) || x <= b by {
                                if !old(oracle).allocated().contains(x) && x > b {
                                    let k3 = choose|k3: u64| #[trigger] leaf_covers(
                                        pre_r.leaves(),
                                        k3,
                                        x,
                                    );
                                    assert(k3 != k);
                                    assert(leaf_covers(self.leaves(), k3, x));
                                }
                            }
                            // every peer that held the caller's entry extent
                            // has been invalidated by now
                            if old(self).ctx_extent(context as int) is Some {
                                let k0 = old(self).ctx_extent(context as int)->0;
                                assert forall|g: usize|
                                    (g as int) < old(self).nr_contexts() && g != context && old(
                                        self,
                                    ).ctx_extent(g as int) == Some(k0) implies self.ctx_extent(
                                    g as int,
                                ) is None && self.ctx_prev(g as int) is None && self.ctx_next(
                                    g as int,
                                ) is None by {
                                    if pre.ctx_extent(context as int) == Some(k0) && pre.leaves()
                                        == old(self).leaves() && pre.chains() == old(self).chains()
                                        && pre.contexts@ == old(self).contexts@ {
                                        assert(k == k0);
                                        assert(pre_r.contexts@[g as int] == old(self).contexts@[
                                            g as int
                                        ]);
                                        assert(pre_r.ctx_extent(g as int) == Some(k));
                                        assert(pre_r.chains()[k].contains(g));
                                    } else {
                                        assert(pre.ctx_extent(g as int) is None);
                                        assert(pre.ctx_prev(g as int) is None);
                                        assert(pre.ctx_next(g as int) is None);
                                        if pre_r.chains()[k].contains(g) {
                                            assert(pre_r.ctx_extent(g as int) == Some(k));
                                        }
                                    }
                                }
                            }
                        }
                        return Ok(Some(b));
                    }
                    return Ok(Some(b));
                },
                Ok(None) => {
                    self.extents.advance_cursor(k, e.end);
                    proof {
                        self.lemma_after_advance(before_adv, k, e.end);
                        self.lemma_holding_context_is_chained(context);
                    }
                    let ghost pre_r = *self;
                    self.reset_and_release(k);
                    proof {
                        // The lexicographic measure falls: either the drained
                        // range had free blocks, spending capacity, or the
                        // leaf was already empty, so nothing was split and
                        // pruning it shrank the tree.
                        self.extents.lemma_capacity_nonneg();
                        if e.cursor < e.end {
                            assert(self.total_capacity() < pre.total_capacity());
                        } else {
                            assert(self.total_capacity() == pre.total_capacity());
                            assert(self.live_count() < pre.live_count());
                        }
                        // If the context entered holding this extent, its
                        // whole hinted range is now known to be allocated.
                        if old(self).ctx_extent(context as int) is Some {
                            let k0 = old(self).ctx_extent(context as int)->0;
                            if pre.ctx_extent(context as int) == Some(k0) && pre.leaves() == old(
                                self,
                            ).leaves() && pre.chains() == old(self).chains() && pre.contexts@
                                == old(self).contexts@ {
                                assert(k == k0);
                                assert(e.cursor == old(self).leaves()[k0].cursor);
                                assert(e.end == old(self).leaves()[k0].end);
                            }
                        }
                        // Other contexts: the invalidated ones are detached.
                        assert forall|g: usize|
                            (g as int) < old(self).nr_contexts() && g != context implies
                            self.ctx_live(g as int) == old(self).ctx_live(g as int) && (
                        self.ctx_extent(g as int) == old(self).ctx_extent(g as int) || (old(
                            self,
                        ).ctx_extent(g as int) is Some && self.ctx_extent(g as int) is None
                            && self.ctx_prev(g as int) is None && self.ctx_next(g as int)
                            is None)) by {
                            if pre_r.chains()[k].contains(g) {
                                assert(pre_r.ctx_extent(g as int) == Some(k));
                            }
                        }
                        // Chains other than the caller's stayed entry chains.
                        assert forall|k2: u64| #[trigger]
                            self.chains().dom().contains(k2) && self.ctx_extent(context as int)
                                != Some(k2) implies old(self).chains().dom().contains(k2)
                            && self.chains()[k2] == old(self).chains()[k2] by {
                            assert(k2 != k);
                            assert(pre_r.chains().dom().contains(k2));
                            assert(self.chains()[k2] == pre_r.chains()[k2]);
                        }
                        // Every hinted block is still allocated or covered:
                        // what the pruned leaf covered, the oracle just
                        // certified as allocated.
                        assert forall|k2: u64, x: u64| #[trigger] leaf_covers(
                            old(self).leaves(),
                            k2,
                            x,
                        ) implies old(oracle).allocated().contains(x) || (exists|k3: u64|
                            #[trigger] leaf_covers(self.leaves(), k3, x)) by {
                            if !old(oracle).allocated().contains(x) {
                                let k3 = choose|k3: u64| #[trigger] leaf_covers(
                                    pre.leaves(),
                                    k3,
                                    x,
                                );
                                assert(leaf_covers(pre.extents.leaves(), k3, x));
                                assert(exists|k4: u64| #[trigger] leaf_covers(
                                    before_adv.extents.leaves(),
                                    k4,
                                    x,
                                ));
                                let k4 = choose|k4: u64| #[trigger] leaf_covers(
                                    before_adv.extents.leaves(),
                                    k4,
                                    x,
                                );
                                if k4 == k {
                                    assert(e.cursor <= x < e.end);
                                    assert(old(oracle).allocated().contains(x));
                                } else {
                                    assert(leaf_covers(self.leaves(), k4, x));
                                }
                            }
                        }
                    }
                },
                Err(err) => {
                    return Err(err);
                },
            }
        }
    }

    /// Invalidates every holder of the drained extent that begins at `begin`:
    /// each context on the chain forgets the extent and its links, and each
    /// outstanding borrow is returned to the tree, so the exhausted leaf is
    /// pruned.  The invalidated contexts stay live; their next allocation
    /// simply fetches a fresh extent.
    #[verifier::rlimit(60)]
    fn reset_and_release(&mut self, begin: u64)
        requires
            old(self).wf(),
            old(self).chains().dom().contains(begin),
            old(self).leaves()[begin].cursor == old(self).leaves()[begin].end,
        ensures
            final(self).wf(),
            final(self).spec_nr_blocks() == old(self).spec_nr_blocks(),
            final(self).nr_contexts() == old(self).nr_contexts(),
            final(self).leaves() == old(self).leaves().remove(begin),
            final(self).chains() == old(self).chains().remove(begin),
            final(self).total_capacity() == old(self).total_capacity(),
            final(self).live_count() < old(self).live_count(),
            forall|g: usize|
                (g as int) < old(self).nr_contexts() ==> final(self).ctx_live(g as int) == old(
                    self,
                ).ctx_live(g as int),
            forall|g: usize|
                (g as int) < old(self).nr_contexts() ==> final(self).ctx_extent(g as int) == (
                if old(self).chains()[begin].contains(g) {
                    None
                } else {
                    old(self).ctx_extent(g as int)
                }),
            forall|g: usize|
                (g as int) < old(self).nr_contexts() && old(self).chains()[begin].contains(g)
                    ==> final(self).ctx_prev(g as int) is None && final(self).ctx_next(g as int)
                    is None,
            forall|g: usize|
                (g as int) < old(self).nr_contexts() && !old(self).chains()[begin].contains(g)
                    ==> final(self).ctx_prev(g as int) == old(self).ctx_prev(g as int)
                        && final(self).ctx_next(g as int) == old(self).ctx_next(g as int),
    {
        proof {
            assert(exists|i: int|
                0 <= i < self.holders@.len() && (#[trigger] self.holders@[i]).0 == begin);
        }
        let i = self.find_holder(begin).unwrap();
        let head = self.holders[i].1;
        self.holders.remove(i);
        let ghost c = self.chains@[begin];
        let ghost hi = i as int;
        proof {
            self.chains@ = self.chains@.remove(begin);
            assert(old(self).chain_ok(begin));
        }
        let ghost len = c.len() as int;
        let mut cur: Option<usize> = Some(head);
        let ghost mut j: int = 0;
        while cur.is_some()
            invariant
                0 <= j <= len,
                len == c.len(),
                cur == (if j < len {
                    Some(c[j])
                } else {
                    None
                }),
                old(self).wf(),
                old(self).chains().dom().contains(begin),
                old(self).chain_ok(begin),
                c == old(self).chains()[begin],
                old(self).leaves()[begin].cursor == old(self).leaves()[begin].end,
                0 <= hi < old(self).holders@.len(),
                old(self).holders@[hi].0 == begin,
                // untouched parts
                self.contexts@.len() == old(self).contexts@.len(),
                self.free_contexts@ == old(self).free_contexts@,
                self.holders@ == old(self).holders@.remove(hi),
                self.chains@ == old(self).chains().remove(begin),
                self.extents.spec_nr_blocks() == old(self).extents.spec_nr_blocks(),
                self.extents.total_nodes() == old(self).extents.total_nodes(),
                self.extents.wf(),
                // the chain's prefix is cleared, its suffix intact
                forall|m: int|
                    0 <= m < j ==> (#[trigger] self.contexts@[c[m] as int]).extent is None
                        && self.contexts@[c[m] as int].prev is None && self.contexts@[c[
                    m
                ] as int].next is None && self.contexts@[c[m] as int].live,
                forall|m: int|
                    j <= m < len ==> #[trigger] self.contexts@[c[m] as int] == old(
                        self,
                    ).contexts@[c[m] as int],
                forall|g: usize|
                    g < self.contexts@.len() && !c.contains(g) ==> #[trigger] self.contexts@[g as int]
                        == old(self).contexts@[g as int],
                // the tree: `begin` has shed `j` holders, all else is untouched
                self.extents.leaves() == (if j < len {
                    old(self).leaves().insert(
                        begin,
                        LeafInfo {
                            end: old(self).leaves()[begin].end,
                            cursor: old(self).leaves()[begin].cursor,
                            holders: (len - j) as nat,
                        },
                    )
                } else {
                    old(self).leaves().remove(begin)
                }),
                self.extents.total_holders() == old(self).extents.total_holders() - j,
                self.extents.total_capacity() == old(self).total_capacity(),
                (j < len ==> self.extents.live_count() == old(self).live_count()),
                (j == len ==> self.extents.live_count() < old(self).live_count()),
                self.held().finite(),
                self.extents.total_holders() == self.held().len(),
            decreases len - j,
        {
            let ghost held0 = self.held();
            let cu = cur.unwrap();
            proof {
                assert(self.contexts@[c[j] as int] == old(self).contexts@[c[j] as int]);
                assert(old(self).contexts@[c[j] as int].next == (if j == len - 1 {
                    None
                } else {
                    Some(c[j + 1])
                }));
                assert(old(self).contexts@[c[j] as int].live);
                assert(old(self).contexts@[c[j] as int].extent == Some(begin));
            }
            let nxt = self.contexts[cu].next;
            self.contexts[cu] = AllocContext { extent: None, prev: None, next: None, live: true };
            proof {
                assert(held0.contains(c[j] as int));
                assert(self.held() =~= held0.remove(c[j] as int));
                assert(self.extents.leaves().dom().contains(begin));
                assert(self.extents.leaves()[begin].holders == len - j);
                assert(self.extents.leaves()[begin].cursor == self.extents.leaves()[begin].end);
            }
            self.extents.release(begin);
            cur = nxt;
            proof {
                j = j + 1;
                if j < len {
                    assert(self.extents.leaves() =~= old(self).leaves().insert(
                        begin,
                        LeafInfo {
                            end: old(self).leaves()[begin].end,
                            cursor: old(self).leaves()[begin].cursor,
                            holders: (len - j) as nat,
                        },
                    ));
                } else {
                    assert(self.extents.leaves() =~= old(self).leaves().remove(begin));
                }
                assert forall|m: int|
                    j <= m < len implies #[trigger] self.contexts@[c[m] as int] == old(
                    self,
                ).contexts@[c[m] as int] by {
                    assert(c[m] != c[j - 1]);
                }
            }
        }
        proof {
            self.lemma_after_chain_reset(*old(self), begin, hi);
        }
    }

    /// Re-establishes the invariant after the whole chain of `begin` has been
    /// cleared and each of its borrows returned, which pruned the drained
    /// leaf.  `hi` is the holders-vector entry that was removed.
    proof fn lemma_after_chain_reset(&self, old_a: Allocator, begin: u64, hi: int)
        requires
            old_a.wf(),
            old_a.chains().dom().contains(begin),
            0 <= hi < old_a.holders@.len(),
            old_a.holders@[hi].0 == begin,
            self.extents.wf(),
            self.extents.leaves() == old_a.leaves().remove(begin),
            self.extents.total_holders() == old_a.extents.total_holders() - old_a.chains()[
                begin
            ].len(),
            self.contexts@.len() == old_a.contexts@.len(),
            forall|m: int|
                0 <= m < old_a.chains()[begin].len() ==> (#[trigger] self.contexts@[old_a.chains()[
                    begin
                ][m] as int]).extent is None && self.contexts@[old_a.chains()[begin][m] as int].prev
                    is None && self.contexts@[old_a.chains()[begin][m] as int].next is None
                    && self.contexts@[old_a.chains()[begin][m] as int].live,
            forall|g: usize|
                g < self.contexts@.len() && !old_a.chains()[begin].contains(g)
                    ==> #[trigger] self.contexts@[g as int] == old_a.contexts@[g as int],
            self.holders@ == old_a.holders@.remove(hi),
            self.chains@ == old_a.chains().remove(begin),
            self.free_contexts@ == old_a.free_contexts@,
            self.extents.total_holders() == self.held().len(),
            self.held().finite(),
        ensures
            self.wf(),
    {
        let c = old_a.chains()[begin];
        assert(old_a.chain_ok(begin));
        // Other chains' members kept their extents and links.
        assert forall|k2: u64| #[trigger] self.chains@.dom().contains(k2) implies self.chain_ok(
            k2,
        ) by {
            let o = old_a.chains()[k2];
            assert(old_a.chain_ok(k2));
            assert(self.chains@[k2] == o);
            assert forall|m: int|
                0 <= m < o.len() implies self.contexts@[#[trigger] o[m] as int] == old_a.contexts@[
                o[m] as int
            ] by {
                assert(old_a.contexts@[o[m] as int].extent == Some(k2));
                if c.contains(o[m]) {
                    let q = choose|q: int| 0 <= q < c.len() && c[q] == o[m];
                    assert(old_a.contexts@[c[q] as int].extent == Some(begin));
                }
            }
        }
        // The holders vector lost exactly the entry of `begin`.
        assert forall|i: int|
            0 <= i < self.holders@.len() implies self.chains@.dom().contains(
            (#[trigger] self.holders@[i]).0,
        ) && self.chains@[self.holders@[i].0][0] == self.holders@[i].1 && self.holders@[i].1
            < self.contexts@.len() by {
            if i < hi {
                assert(self.holders@[i] == old_a.holders@[i]);
                assert(old_a.holders@[i].0 != begin);
            } else {
                assert(self.holders@[i] == old_a.holders@[i + 1]);
                assert(old_a.holders@[i + 1].0 != begin);
            }
        }
        assert forall|k2: u64| #[trigger] self.chains@.dom().contains(k2) implies exists|i: int|
            0 <= i < self.holders@.len() && (#[trigger] self.holders@[i]).0 == k2 by {
            let i = choose|i: int|
                0 <= i < old_a.holders@.len() && (#[trigger] old_a.holders@[i]).0 == k2;
            if i < hi {
                assert(self.holders@[i].0 == k2);
            } else {
                assert(i != hi);
                assert(self.holders@[i - 1].0 == k2);
            }
        }
        assert forall|i: int, j: int|
            0 <= i < j < self.holders@.len() implies self.holders@[i].0 != self.holders@[j].0 by {
            let oi: int = if i < hi {
                i
            } else {
                i + 1
            };
            let oj: int = if j < hi {
                j
            } else {
                j + 1
            };
            assert(self.holders@[i].0 == old_a.holders@[oi].0);
            assert(self.holders@[j].0 == old_a.holders@[oj].0);
        }
        // Every context that still holds an extent sits on a surviving chain.
        assert forall|g: usize|
            g < self.contexts@.len() && (#[trigger] self.contexts@[g as int]).live
                && self.contexts@[g as int].extent is Some implies self.chains@.dom().contains(
            self.contexts@[g as int].extent->0,
        ) && self.chains@[self.contexts@[g as int].extent->0].contains(g) by {
            assert(!c.contains(g));
            assert(self.contexts@[g as int] == old_a.contexts@[g as int]);
            let k2 = old_a.contexts@[g as int].extent->0;
            assert(old_a.chains().dom().contains(k2) && old_a.chains()[k2].contains(g));
            if k2 == begin {
                assert(c.contains(g));
            }
        }
        // Detached and dead contexts.
        assert forall|g: usize|
            g < self.contexts@.len() && (#[trigger] self.contexts@[g as int]).live
                && self.contexts@[g as int].extent is None implies self.contexts@[g as int].prev
            is None && self.contexts@[g as int].next is None by {
            if !c.contains(g) {
                assert(self.contexts@[g as int] == old_a.contexts@[g as int]);
            }
        }
        assert forall|g: usize|
            g < self.contexts@.len() && !(#[trigger] self.contexts@[g as int]).live implies
            self.contexts@[g as int].extent is None && self.contexts@[g as int].prev is None
            && self.contexts@[g as int].next is None by {
            if c.contains(g) {
                let q = choose|q: int| 0 <= q < c.len() && c[q] == g;
                assert(self.contexts@[c[q] as int].live);
            }
        }
        assert forall|g: usize|
            g < self.contexts@.len() && !(#[trigger] self.contexts@[g as int]).live implies
            self.free_contexts@.contains(g) by {
            if c.contains(g) {
                let q = choose|q: int| 0 <= q < c.len() && c[q] == g;
                assert(self.contexts@[c[q] as int].live);
            } else {
                assert(self.contexts@[g as int] == old_a.contexts@[g as int]);
            }
        }
        // Chains and tree holder counts still agree.
        assert forall|k2: u64| #[trigger] self.chains@.dom().contains(k2) implies
            self.extents.leaves().dom().contains(k2) && self.extents.leaves()[k2].holders
                == self.chains@[k2].len() by {
            assert(old_a.extents.leaves().dom().contains(k2));
        }
    }

    /// Walks one holder chain, clearing every context on it: each forgets its
    /// extent and both links, and stays live.  Touches nothing else.
    fn reset_chained_contexts(&mut self, head: usize, c: Ghost<Seq<usize>>)
        requires
            c@.len() >= 1,
            head == c@[0],
            forall|i: int| 0 <= i < c@.len() ==> (#[trigger] c@[i] as int) < old(self).contexts@.len(),
            forall|i: int| 0 <= i < c@.len() ==> (#[trigger] old(self).contexts@[c@[i] as int]).live,
            forall|i: int|
                0 <= i < c@.len() ==> (#[trigger] old(self).contexts@[c@[i] as int]).next == (
                if i == c@.len() - 1 {
                    None
                } else {
                    Some(c@[i + 1])
                }),
            forall|i: int, j: int| 0 <= i < j < c@.len() ==> c@[i] != c@[j],
        ensures
            final(self).extents == old(self).extents,
            final(self).holders@ == old(self).holders@,
            final(self).free_contexts@ == old(self).free_contexts@,
            final(self).chains@ == old(self).chains@,
            final(self).contexts@.len() == old(self).contexts@.len(),
            forall|g: usize|
                g < old(self).contexts@.len() && !c@.contains(g)
                    ==> #[trigger] final(self).contexts@[g as int] == old(self).contexts@[g as int],
            forall|i: int|
                0 <= i < c@.len() ==> (#[trigger] final(self).contexts@[c@[i] as int]).extent
                    is None && final(self).contexts@[c@[i] as int].prev is None
                    && final(self).contexts@[c@[i] as int].next is None
                    && final(self).contexts@[c@[i] as int].live,
    {
        let ghost len = c@.len() as int;
        let mut cur: Option<usize> = Some(head);
        let ghost mut j: int = 0;
        while cur.is_some()
            invariant
                0 <= j <= len,
                len == c@.len(),
                cur == (if j < len {
                    Some(c@[j])
                } else {
                    None
                }),
                self.extents == old(self).extents,
                self.holders@ == old(self).holders@,
                self.free_contexts@ == old(self).free_contexts@,
                self.chains@ == old(self).chains@,
                self.contexts@.len() == old(self).contexts@.len(),
                forall|i: int|
                    0 <= i < c@.len() ==> (#[trigger] c@[i] as int) < old(self).contexts@.len(),
                forall|i: int|
                    0 <= i < c@.len() ==> (#[trigger] old(self).contexts@[c@[i] as int]).live,
                forall|i: int|
                    0 <= i < c@.len() ==> (#[trigger] old(self).contexts@[c@[i] as int]).next == (
                    if i == c@.len() - 1 {
                        None
                    } else {
                        Some(c@[i + 1])
                    }),
                forall|i: int, j2: int| 0 <= i < j2 < c@.len() ==> c@[i] != c@[j2],
                forall|g: usize|
                    g < old(self).contexts@.len() && !c@.contains(g)
                        ==> #[trigger] self.contexts@[g as int] == old(self).contexts@[g as int],
                forall|m: int|
                    0 <= m < j ==> (#[trigger] self.contexts@[c@[m] as int]).extent is None
                        && self.contexts@[c@[m] as int].prev is None && self.contexts@[c@[
                    m
                ] as int].next is None && self.contexts@[c@[m] as int].live,
                forall|m: int|
                    j <= m < len ==> #[trigger] self.contexts@[c@[m] as int] == old(
                        self,
                    ).contexts@[c@[m] as int],
            decreases len - j,
        {
            let cu = cur.unwrap();
            proof {
                assert(self.contexts@[c@[j] as int] == old(self).contexts@[c@[j] as int]);
            }
            let nxt = self.contexts[cu].next;
            self.contexts[cu] = AllocContext { extent: None, prev: None, next: None, live: true };
            cur = nxt;
            proof {
                j = j + 1;
                assert forall|m: int|
                    j <= m < len implies #[trigger] self.contexts@[c@[m] as int] == old(
                    self,
                ).contexts@[c@[m] as int] by {
                    assert(c@[m] != c@[j - 1]);
                }
            }
        }
    }

    /// Clears every holder chain, emptying the holders map.  The tree is left
    /// untouched: callers rebuild it right after.
    #[verifier::loop_isolation(false)]
    fn reset_all_contexts(&mut self)
        requires
            old(self).wf(),
        ensures
            final(self).extents == old(self).extents,
            final(self).holders@.len() == 0,
            final(self).chains() == Map::<u64, Seq<usize>>::empty(),
            final(self).nr_contexts() == old(self).nr_contexts(),
            final(self).free_contexts@ == old(self).free_contexts@,
            forall|g: usize|
                (g as int) < old(self).nr_contexts() ==> final(self).ctx_live(g as int) == old(
                    self,
                ).ctx_live(g as int) && final(self).ctx_extent(g as int) is None && final(self).ctx_prev(g as int) is None && final(self).ctx_next(g as int) is None,
    {
        while self.holders.len() > 0
            invariant
                self.extents == old(self).extents,
                self.free_contexts@ == old(self).free_contexts@,
                self.contexts@.len() == old(self).contexts@.len(),
                self.holders@ == old(self).holders@.take(self.holders@.len() as int),
                self.holders@.len() <= old(self).holders@.len(),
                // the chains that remain are those still listed
                forall|k: u64| #[trigger]
                    self.chains@.dom().contains(k) ==> old(self).chains@.dom().contains(k)
                        && self.chains@[k] == old(self).chains@[k],
                forall|i: int|
                    0 <= i < self.holders@.len() ==> self.chains@.dom().contains(
                        (#[trigger] self.holders@[i]).0,
                    ),
                forall|k: u64| #[trigger]
                    self.chains@.dom().contains(k) ==> exists|i: int|
                        0 <= i < self.holders@.len() && (#[trigger] self.holders@[i]).0 == k,
                // remaining chains are intact: their members still carry the
                // original records
                forall|k: u64| #[trigger]
                    self.chains@.dom().contains(k) ==> self.chain_ok(k),
                // every context is either cleared or as it was, and anyone
                // still holding an extent is on a remaining chain
                forall|g: usize|
                    (g as int) < self.contexts@.len() ==> (#[trigger] self.contexts@[g as int]).live
                        == old(self).contexts@[g as int].live,
                forall|g: usize|
                    (g as int) < self.contexts@.len() && (#[trigger] self.contexts@[g as int]).extent
                        is Some ==> self.contexts@[g as int] == old(self).contexts@[g as int]
                        && self.chains@.dom().contains(self.contexts@[g as int].extent->0)
                        && self.chains@[self.contexts@[g as int].extent->0].contains(g),
                forall|g: usize|
                    (g as int) < self.contexts@.len() && (#[trigger] self.contexts@[g as int]).extent
                        is None ==> self.contexts@[g as int].prev is None && self.contexts@[
                    g as int
                ].next is None,
            decreases self.holders@.len(),
        {
            let ghost it0 = *self;
            let entry_idx = self.holders.len() - 1;
            let (k, head) = self.holders[entry_idx];
            self.holders.pop();
            let ghost c = self.chains@[k];
            proof {
                assert(it0.chains@.dom().contains(k));
                assert(it0.chain_ok(k));
                self.chains@ = self.chains@.remove(k);
                assert forall|i: int|
                    0 <= i < c.len() implies (#[trigger] self.contexts@[c[i] as int]).live
                    && self.contexts@[c[i] as int].next == (if i == c.len() - 1 {
                    None
                } else {
                    Some(c[i + 1])
                }) by {}
            }
            self.reset_chained_contexts(head, Ghost(c));
            proof {
                assert(self.holders@ =~= old(self).holders@.take(self.holders@.len() as int));
                assert forall|k2: u64| #[trigger]
                    self.chains@.dom().contains(k2) implies self.chain_ok(k2) by {
                    let o = self.chains@[k2];
                    assert(it0.chain_ok(k2));
                    assert forall|i: int|
                        0 <= i < o.len() implies self.contexts@[#[trigger] o[i] as int]
                        == it0.contexts@[o[i] as int] by {
                        assert(it0.contexts@[o[i] as int].extent == Some(k2));
                        if c.contains(o[i]) {
                            let q = choose|q: int| 0 <= q < c.len() && c[q] == o[i];
                            assert(it0.contexts@[c[q] as int].extent == Some(k));
                        }
                    }
                }
                assert forall|k2: u64| #[trigger]
                    self.chains@.dom().contains(k2) implies exists|i: int|
                    0 <= i < self.holders@.len() && (#[trigger] self.holders@[i]).0 == k2 by {
                    let i = choose|i: int|
                        0 <= i < it0.holders@.len() && (#[trigger] it0.holders@[i]).0 == k2;
                    assert(it0.holders@[i] == old(self).holders@[i]);
                    assert(i != entry_idx as int) by {
                        if i == entry_idx as int {
                            assert(it0.holders@[i].0 == k);
                        }
                    }
                    assert(self.holders@[i] == it0.holders@[i]);
                    assert(self.holders@[i].0 == k2);
                }
                assert forall|g: usize|
                    (g as int) < self.contexts@.len() && (#[trigger] self.contexts@[g as int]).extent
                        is Some implies self.contexts@[g as int] == old(self).contexts@[g as int]
                    && self.chains@.dom().contains(self.contexts@[g as int].extent->0)
                    && self.chains@[self.contexts@[g as int].extent->0].contains(g) by {
                    if c.contains(g) {
                        let q = choose|q: int| 0 <= q < c.len() && c[q] == g;
                        assert(self.contexts@[c[q] as int].extent is None);
                    } else {
                        assert(self.contexts@[g as int] == it0.contexts@[g as int]);
                        let k2 = it0.contexts@[g as int].extent->0;
                        assert(it0.chains@.dom().contains(k2) && it0.chains@[k2].contains(g));
                        assert(k2 != k) by {
                            if k2 == k {
                                assert(c.contains(g));
                            }
                        }
                    }
                }
                assert forall|g: usize|
                    (g as int) < self.contexts@.len() implies (#[trigger] self.contexts@[g as int]).live
                    == old(self).contexts@[g as int].live by {
                    if c.contains(g) {
                        let q = choose|q: int| 0 <= q < c.len() && c[q] == g;
                        assert(self.contexts@[c[q] as int].live);
                        assert(it0.contexts@[c[q] as int].extent == Some(k));
                        assert(it0.contexts@[g as int] == old(self).contexts@[g as int]);
                        assert(old(self).contexts@[g as int].live);
                    } else {
                        assert(self.contexts@[g as int] == it0.contexts@[g as int]);
                    }
                }
            }
        }
        proof {
            assert forall|k: u64| !(#[trigger] self.chains@.dom().contains(k)) by {
                if self.chains@.dom().contains(k) {
                    let i = choose|i: int|
                        0 <= i < self.holders@.len() && (#[trigger] self.holders@[i]).0 == k;
                }
            }
            assert(self.chains@.dom() =~= Set::<u64>::empty());
            assert(self.chains@ =~= Map::<u64, Seq<usize>>::empty());
            assert forall|g: usize|
                (g as int) < old(self).nr_contexts() implies self.ctx_extent(g as int) is None by {
                if self.contexts@[g as int].extent is Some {
                    assert(self.chains@.dom().contains(self.contexts@[g as int].extent->0));
                }
            }
        }
    }

    /// Forgets every outstanding context extent and rebuilds the tree as a
    /// single leaf over the unchanged address space.
    pub fn reset(&mut self)
        requires
            old(self).wf(),
        ensures
            final(self).wf(),
            final(self).spec_nr_blocks() == old(self).spec_nr_blocks(),
            final(self).nr_contexts() == old(self).nr_contexts(),
            final(self).chains() == Map::<u64, Seq<usize>>::empty(),
            final(self).leaves() == map![0u64 => LeafInfo {
                end: old(self).spec_nr_blocks(),
                cursor: 0u64,
                holders: 0nat,
            }],
            forall|g: usize|
                (g as int) < old(self).nr_contexts() ==> final(self).ctx_live(g as int) == old(
                    self,
                ).ctx_live(g as int) && final(self).ctx_extent(g as int) is None
                    && final(self).ctx_prev(g as int) is None && final(self).ctx_next(g as int)
                    is None,
    {
        self.reset_all_contexts();
        let ghost m = *self;
        self.extents.reset();
        proof {
            assert forall|g: usize|
                (g as int) < self.contexts@.len() implies #[trigger] self.ctx_live(g as int)
                == old(self).ctx_live(g as int) && self.ctx_extent(g as int) is None
                && self.ctx_prev(g as int) is None && self.ctx_next(g as int) is None by {
                assert(self.contexts@ == m.contexts@);
                assert(m.ctx_live(g as int) == old(self).ctx_live(g as int));
                assert(m.ctx_extent(g as int) is None);
                assert(m.ctx_prev(g as int) is None);
                assert(m.ctx_next(g as int) is None);
            }
            self.lemma_after_reset(*old(self));
        }
    }

    /// Like [`Self::reset`], but over a new address space `[0, nr_blocks)`.
    pub fn resize(&mut self, nr_blocks: u64)
        requires
            old(self).wf(),
        ensures
            final(self).wf(),
            final(self).spec_nr_blocks() == nr_blocks,
            final(self).nr_contexts() == old(self).nr_contexts(),
            final(self).chains() == Map::<u64, Seq<usize>>::empty(),
            final(self).leaves() == map![0u64 => LeafInfo { end: nr_blocks, cursor: 0u64, holders: 0nat }],
            forall|g: usize|
                (g as int) < old(self).nr_contexts() ==> final(self).ctx_live(g as int) == old(
                    self,
                ).ctx_live(g as int) && final(self).ctx_extent(g as int) is None
                    && final(self).ctx_prev(g as int) is None && final(self).ctx_next(g as int)
                    is None,
    {
        self.reset_all_contexts();
        let ghost m = *self;
        self.extents.resize(nr_blocks);
        proof {
            assert forall|g: usize|
                (g as int) < self.contexts@.len() implies #[trigger] self.ctx_live(g as int)
                == old(self).ctx_live(g as int) && self.ctx_extent(g as int) is None
                && self.ctx_prev(g as int) is None && self.ctx_next(g as int) is None by {
                assert(self.contexts@ == m.contexts@);
                assert(m.ctx_live(g as int) == old(self).ctx_live(g as int));
                assert(m.ctx_extent(g as int) is None);
                assert(m.ctx_prev(g as int) is None);
                assert(m.ctx_next(g as int) is None);
            }
            self.lemma_after_reset(*old(self));
        }
    }

    /// Re-establishes the invariant once every chain is gone and the tree is
    /// a fresh single leaf with no holders.
    proof fn lemma_after_reset(&self, old_a: Allocator)
        requires
            old_a.wf(),
            self.extents.wf(),
            self.extents.total_holders() == 0,
            forall|k: u64| #[trigger]
                self.extents.leaves().dom().contains(k) ==> self.extents.leaves()[k].holders == 0,
            self.holders@.len() == 0,
            self.chains@ == Map::<u64, Seq<usize>>::empty(),
            self.contexts@.len() == old_a.contexts@.len(),
            self.free_contexts@ == old_a.free_contexts@,
            forall|g: usize|
                (g as int) < self.contexts@.len() ==> #[trigger] self.ctx_live(g as int)
                    == old_a.ctx_live(g as int) && self.ctx_extent(g as int) is None
                    && self.ctx_prev(g as int) is None && self.ctx_next(g as int) is None,
        ensures
            self.wf(),
    {
        assert forall|g: usize|
            (g as int) < self.contexts@.len() implies (#[trigger] self.contexts@[g as int]).live
            == old_a.contexts@[g as int].live && self.contexts@[g as int].extent is None
            && self.contexts@[g as int].prev is None && self.contexts@[g as int].next is None by {
            assert(self.ctx_live(g as int) == old_a.ctx_live(g as int));
            assert(self.ctx_extent(g as int) is None);
        }
        lemma_ctx_len_bound(&self.contexts);
        assert(self.held() =~= Set::<int>::empty()) by {
            assert forall|g: int| !self.held().contains(g) by {
                if 0 <= g < self.contexts@.len() {
                    assert(self.contexts@[(g as usize) as int].extent is None);
                }
            }
        }
        assert(Set::<int>::empty().len() == 0);
        assert forall|g: usize|
            g < self.contexts@.len() && !(#[trigger] self.contexts@[g as int]).live implies
            self.free_contexts@.contains(g) by {
            assert(!old_a.contexts@[g as int].live);
            assert(old_a.free_contexts@.contains(g));
        }
    }

    /// Takes a context back.  If it still holds an extent, the context is
    /// unlinked from that extent's holder chain and the borrow is returned to
    /// the tree; then the slot is retired.
    #[verifier::rlimit(100)]
    pub fn put_context(&mut self, h: usize)
        requires
            old(self).wf(),
            old(self).ctx_live(h as int),
        ensures
            final(self).wf(),
            !final(self).ctx_live(h as int),
            final(self).nr_contexts() == old(self).nr_contexts(),
            final(self).spec_nr_blocks() == old(self).spec_nr_blocks(),
            forall|g: int|
                0 <= g < old(self).nr_contexts() && g != h ==> final(self).ctx_live(g) == old(
                    self,
                ).ctx_live(g) && final(self).ctx_extent(g) == old(self).ctx_extent(g),
            match old(self).ctx_extent(h as int) {
                None => final(self).leaves() == old(self).leaves() && final(self).chains() == old(
                    self,
                ).chains(),
                Some(k) => {
                    &&& final(self).leaves() == release_result(old(self).leaves(), k)
                    &&& (old(self).chains()[k].len() == 1 ==> final(self).chains() == old(
                        self,
                    ).chains().remove(k))
                    &&& (old(self).chains()[k].len() > 1 ==> final(self).chains().dom() == old(
                        self,
                    ).chains().dom() && (exists|p: int|
                        0 <= p < old(self).chains()[k].len() && old(self).chains()[k][p] == h
                            && final(self).chains()[k] == #[trigger] old(self).chains()[k].remove(
                            p,
                        )) && (forall|k2: u64| #[trigger]
                        old(self).chains().dom().contains(k2) && k2 != k ==> final(self).chains()[
                            k2
                        ] == old(self).chains()[k2]))
                },
            },
    {
        let ctx = self.contexts[h];
        match ctx.extent {
            None => {
                self.contexts[h] = AllocContext { extent: None, prev: None, next: None, live: false };
                self.free_contexts.push(h);
                proof {
                    assert(self.held() =~= old(self).held());
                    assert forall|k2: u64| #[trigger] self.chains@.dom().contains(k2) implies self.chain_ok(
                        k2,
                    ) by {
                        let c2 = self.chains@[k2];
                        assert forall|i: int|
                            0 <= i < c2.len() implies self.contexts@[#[trigger] c2[i] as int]
                            == old(self).contexts@[c2[i] as int] by {
                            assert(old(self).contexts@[c2[i] as int].extent == Some(k2));
                        }
                    }
                    assert forall|g: usize|
                        g < self.contexts@.len() && !(#[trigger] self.contexts@[g as int]).live
                            implies self.free_contexts@.contains(g) by {
                        if g != h {
                            assert(old(self).free_contexts@.contains(g));
                            let i = choose|i: int|
                                0 <= i < old(self).free_contexts@.len() && old(
                                    self,
                                ).free_contexts@[i] == g;
                            assert(self.free_contexts@[i] == g);
                        } else {
                            assert(self.free_contexts@[self.free_contexts@.len() - 1] == h);
                        }
                    }
                    assert(!old(self).free_contexts@.contains(h)) by {
                        if old(self).free_contexts@.contains(h) {
                            let i = choose|i: int|
                                0 <= i < old(self).free_contexts@.len() && old(
                                    self,
                                ).free_contexts@[i] == h;
                            assert(!old(self).contexts@[old(self).free_contexts@[i] as int].live);
                        }
                    }
                }
            },
            Some(k) => {
                let ghost c = self.chains@[k];
                let ghost p = choose|p: int| 0 <= p < c.len() && c[p] == h;
                proof {
                    assert(self.chains@.dom().contains(k));
                    assert(c.contains(h));
                    assert(0 <= p < c.len() && c[p] == h);
                    assert(self.chain_ok(k));
                    assert(self.contexts@[c[p] as int].prev == (if p == 0 {
                        None
                    } else {
                        Some(c[p - 1])
                    }));
                    assert(self.contexts@[c[p] as int].next == (if p == c.len() - 1 {
                        None
                    } else {
                        Some(c[p + 1])
                    }));
                    assert(self.contexts@[c[p] as int] == ctx);
                    assert(exists|i: int|
                        0 <= i < self.holders@.len() && (#[trigger] self.holders@[i]).0 == k);
                }
                match (ctx.prev, ctx.next) {
                    (None, None) => {
                        // Sole holder of this leaf: the chain disappears.
                        proof {
                            assert(p == 0 && c.len() == 1);
                        }
                        proof {
                            assert(self.holders@ == old(self).holders@);
                            assert(exists|i: int|
                                0 <= i < self.holders@.len() && (#[trigger] self.holders@[i]).0
                                    == k);
                        }
                        let i = self.find_holder(k).unwrap();
                        self.holders.remove(i);
                        self.contexts[h] = AllocContext {
                            extent: None,
                            prev: None,
                            next: None,
                            live: false,
                        };
                        self.free_contexts.push(h);
                        self.extents.release(k);
                        proof {
                            self.chains@ = self.chains@.remove(k);
                            self.lemma_after_unlink(*old(self), h, k, p, c.remove(p), i as int);
                        }
                    },
                    (None, Some(nx)) => {
                        // Head of a longer chain: the successor becomes head.
                        proof {
                            assert(p == 0 && c.len() > 1);
                            assert(nx == c[1]);
                            assert(c[1] != c[0]);
                        }
                        let succ = self.contexts[nx];
                        self.contexts[nx] = AllocContext {
                            extent: succ.extent,
                            prev: None,
                            next: succ.next,
                            live: succ.live,
                        };
                        proof {
                            assert(self.holders@ == old(self).holders@);
                            assert(exists|i: int|
                                0 <= i < self.holders@.len() && (#[trigger] self.holders@[i]).0
                                    == k);
                        }
                        let i = self.find_holder(k).unwrap();
                        self.holders[i] = (k, nx);
                        self.contexts[h] = AllocContext {
                            extent: None,
                            prev: None,
                            next: None,
                            live: false,
                        };
                        self.free_contexts.push(h);
                        self.extents.release(k);
                        proof {
                            self.chains@ = self.chains@.insert(k, c.remove(0));
                            self.lemma_after_unlink(*old(self), h, k, p, c.remove(p), i as int);
                        }
                    },
                    (Some(pv), nxo) => {
                        // Unlink from the middle or the tail.
                        proof {
                            assert(p >= 1);
                            assert(pv == c[p - 1]);
                        }
                        let pred = self.contexts[pv];
                        self.contexts[pv] = AllocContext {
                            extent: pred.extent,
                            prev: pred.prev,
                            next: nxo,
                            live: pred.live,
                        };
                        if let Some(nx) = nxo {
                            proof {
                                assert(p < c.len() - 1);
                                assert(nx == c[p + 1]);
                            }
                            let succ = self.contexts[nx];
                            self.contexts[nx] = AllocContext {
                                extent: succ.extent,
                                prev: Some(pv),
                                next: succ.next,
                                live: succ.live,
                            };
                        }
                        self.contexts[h] = AllocContext {
                            extent: None,
                            prev: None,
                            next: None,
                            live: false,
                        };
                        self.free_contexts.push(h);
                        self.extents.release(k);
                        proof {
                            self.chains@ = self.chains@.insert(k, c.remove(p));
                            assert(c.remove(p)[p - 1] == pv);
                            if nxo is Some {
                                assert(c.remove(p)[p] == c[p + 1]);
                            }
                            self.lemma_after_unlink(*old(self), h, k, p, c.remove(p), -1);
                        }
                    },
                }
            },
        }
    }
}

} // verus!
