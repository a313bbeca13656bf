//! Compression of a list of block numbers into runs of consecutive blocks.

use vstd::prelude::*;

verus! {

/// The runs of consecutive values in `s`, scanned left to right: each run
/// `(b, e)` stands for the values `b, b + 1, ..., e` as they appear in `s`.
pub open spec fn runs_of(s: Seq<u64>) -> Seq<(u64, u64)>
    recommends
        s.len() >= 1,
    decreases s.len(),
{
    if s.len() <= 1 {
        seq![(s[0], s[0])]
    } else {
        let prev = runs_of(s.drop_last());
        let last_run = prev.last();
        let b = s.last();
        if b == last_run.1 + 1 {
            prev.update(prev.len() - 1, (last_run.0, b))
        } else {
            prev.push((b, b))
        }
    }
}

/// Collapses `blocks` into runs of consecutive values.
pub fn to_runs(blocks: &[u64]) -> (runs: Vec<(u64, u64)>)
    requires
        blocks@.len() >= 1,
    ensures
        runs@ == runs_of(blocks@),
{
    let mut runs: Vec<(u64, u64)> = Vec::new();
    let mut begin: u64 = blocks[0];
    let mut end: u64 = begin;
    let mut i: usize = 1;
    while i < blocks.len()
        invariant
            1 <= i <= blocks@.len(),
            runs_of(blocks@.take(i as int)) == runs@.push((begin, end)),
        decreases blocks@.len() - i,
    {
        let block = blocks[i];
        proof {
            assert(blocks@.take(i + 1).drop_last() =~= blocks@.take(i as int));
        }
        if block > end && block - end == 1 {
            proof {
                assert(runs_of(blocks@.take(i + 1)) =~= runs@.push((begin, block)));
            }
            end = block;
        } else {
            proof {
                assert(runs_of(blocks@.take(i + 1)) =~= runs@.push((begin, end)).push((
                    block,
                    block,
                )));
            }
            runs.push((begin, end));
            begin = block;
            end = block;
        }
        i += 1;
    }
    proof {
        assert(blocks@.take(blocks@.len() as int) =~= blocks@);
    }
    runs.push((begin, end));
    runs
}

} // verus!
