//! Laws about block issuance, stated over the oracle's allocated set.
//!
//! Each successful allocation takes a block that was free in the oracle and
//! marks exactly that block — that is what [`crate::allocator::Allocator::allocate`]
//! guarantees of every `Ok(Some(b))`.  These lemmas lift that per-call
//! guarantee to whole runs: a run of successful allocations never issues the
//! same block twice, and it grows the oracle's set by exactly its length.

use vstd::prelude::*;

verus! {

/// The oracle's allocated set after the blocks `bs` have been issued, in
/// order, starting from `s0`.
pub open spec fn issue_trace(s0: Set<u64>, bs: Seq<u64>) -> Set<u64>
    decreases bs.len(),
{
    if bs.len() == 0 {
        s0
    } else {
        issue_trace(s0, bs.drop_last()).insert(bs.last())
    }
}

/// A run of successful allocations: each block was free in the oracle at the
/// moment it was issued.
pub open spec fn fresh_issues(s0: Set<u64>, bs: Seq<u64>) -> bool {
    forall|i: int| 0 <= i < bs.len() ==> !issue_trace(s0, #[trigger] bs.take(i)).contains(bs[i])
}

/// Taking one more step of a trace.
proof fn lemma_trace_step(s0: Set<u64>, bs: Seq<u64>, i: int)
    requires
        0 <= i < bs.len(),
    ensures
        issue_trace(s0, bs.take(i + 1)) == issue_trace(s0, bs.take(i)).insert(bs[i]),
{
    assert(bs.take(i + 1).drop_last() =~= bs.take(i));
    assert(bs.take(i + 1).last() == bs[i]);
}

/// A trace only ever grows.
proof fn lemma_trace_monotone(s0: Set<u64>, bs: Seq<u64>, i: int, j: int, x: u64)
    requires
        0 <= i <= j <= bs.len(),
        issue_trace(s0, bs.take(i)).contains(x),
    ensures
        issue_trace(s0, bs.take(j)).contains(x),
    decreases j - i,
{
    if i < j {
        lemma_trace_step(s0, bs, j - 1);
        lemma_trace_monotone(s0, bs, i, j - 1, x);
    }
}

/// Exclusive issuance: a run of successful allocations never returns the same
/// block twice.
pub proof fn lemma_exclusive_issuance(s0: Set<u64>, bs: Seq<u64>)
    requires
        fresh_issues(s0, bs),
    ensures
        forall|i: int, j: int| 0 <= i < j < bs.len() ==> bs[i] != bs[j],
{
    assert forall|i: int, j: int| 0 <= i < j < bs.len() implies bs[i] != bs[j] by {
        lemma_trace_step(s0, bs, i);
        assert(issue_trace(s0, bs.take(i + 1)).contains(bs[i]));
        lemma_trace_monotone(s0, bs, i + 1, j, bs[i]);
        assert(issue_trace(s0, bs.take(j)).contains(bs[i]));
    }
}

/// Total accounting: after a run of M successful allocations against an
/// oracle that started with K blocks set, the oracle has exactly M + K
/// blocks set.
pub proof fn lemma_total_accounting(s0: Set<u64>, bs: Seq<u64>)
    requires
        s0.finite(),
        fresh_issues(s0, bs),
    ensures
        issue_trace(s0, bs).finite(),
        issue_trace(s0, bs).len() == s0.len() + bs.len(),
    decreases bs.len(),
{
    if bs.len() > 0 {
        let n = bs.len() as int;
        assert(bs.take(n - 1) =~= bs.drop_last());
        assert(fresh_issues(s0, bs.drop_last())) by {
            assert forall|i: int|
                0 <= i < bs.drop_last().len() implies !issue_trace(
                s0,
                #[trigger] bs.drop_last().take(i),
            ).contains(bs.drop_last()[i]) by {
                assert(bs.drop_last().take(i) =~= bs.take(i));
            }
        }
        lemma_total_accounting(s0, bs.drop_last());
        assert(!issue_trace(s0, bs.take(n - 1)).contains(bs[n - 1]));
        assert(issue_trace(s0, bs) == issue_trace(s0, bs.drop_last()).insert(bs.last()));
    } else {
        assert(issue_trace(s0, bs) == s0);
    }
}

} // verus!
