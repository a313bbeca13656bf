//! The occupancy oracle: the external owner of the real free/used state.

use vstd::prelude::*;

verus! {

/// The predicate that owns the ground truth of which blocks are free.  The
/// partition tree in front of it is only a hint structure: it tracks
/// capacity, never actual availability.
///
/// `allocated()` is the set of blocks the oracle currently holds as in use.
/// An implementation must mark and return some free block of `[begin, end)`
/// when one exists, answer `None` only when that whole range is in use, and
/// leave its state unchanged when it fails.  Everything the allocator
/// guarantees holds for every implementation that meets this contract.
pub trait Oracle {
    type Error;

    /// The blocks currently marked as allocated.  Implementations outside
    /// verified code need not name this ghost view; it only gives the
    /// contract below something to speak about.
    open spec fn allocated(&self) -> Set<u64> {
        Set::empty()
    }

    /// Marks some free block of `[begin, end)` as allocated and returns it.
    fn alloc_block(&mut self, begin: u64, end: u64) -> (r: Result<Option<u64>, Self::Error>)
        ensures
            match r {
                Ok(Some(b)) => begin <= b < end && !old(self).allocated().contains(b)
                    && final(self).allocated() == old(self).allocated().insert(b),
                Ok(None) => final(self).allocated() == old(self).allocated() && (forall|x: u64|
                    begin <= x < end ==> old(self).allocated().contains(x)),
                Err(_) => final(self).allocated() == old(self).allocated(),
            },
    ;
}

} // verus!
