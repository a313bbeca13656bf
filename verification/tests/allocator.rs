use bsp_alloc::allocator::Allocator;
use bsp_alloc::oracle::Oracle;
use roaring::RoaringBitmap;

// The occupancy oracle the tests drive the allocator against: a bitmap of
// allocated blocks, handing out the first free block of the asked range.
struct BitmapOracle {
    allocated: RoaringBitmap,
}

impl BitmapOracle {
    fn new() -> Self {
        Self {
            allocated: RoaringBitmap::new(),
        }
    }
}

impl Oracle for BitmapOracle {
    type Error = std::io::Error;

    fn alloc_block(&mut self, begin: u64, end: u64) -> Result<Option<u64>, Self::Error> {
        for block in begin..end {
            if !self.allocated.contains(block as u32) {
                self.allocated.insert(block as u32);
                return Ok(Some(block));
            }
        }
        Ok(None)
    }
}

// An oracle that always fails, for checking error propagation.
struct BrokenOracle;

impl Oracle for BrokenOracle {
    type Error = String;

    fn alloc_block(&mut self, _begin: u64, _end: u64) -> Result<Option<u64>, Self::Error> {
        Err(String::from("backing store unavailable"))
    }
}

struct AllocationContext {
    inner: Option<usize>,
    blocks: Vec<u64>,
}

impl AllocationContext {
    fn new(inner: usize) -> Self {
        Self {
            inner: Some(inner),
            blocks: Vec::new(),
        }
    }
}

fn preallocate_random(allocated: &mut RoaringBitmap, count: u64, range: std::ops::Range<u64>) {
    let len = range.end - range.start;
    for _ in 0..count {
        loop {
            let block = rand::random::<u64>() % len + range.start;
            if !allocated.contains(block as u32) {
                allocated.insert(block as u32);
                break;
            }
        }
    }
}

fn preallocate_linear(allocated: &mut RoaringBitmap, count: u64, offset: u64) {
    allocated.insert_range((offset as u32)..(offset + count) as u32);
}

fn context_alloc(
    context: &mut AllocationContext,
    allocator: &mut Allocator,
    oracle: &mut BitmapOracle,
) -> std::io::Result<Option<u64>> {
    match allocator.allocate(context.inner.unwrap(), oracle) {
        Ok(Some(block)) => {
            context.blocks.push(block);
            Ok(Some(block))
        }
        Ok(None) => Ok(None),
        Err(e) => Err(e),
    }
}

fn do_allocation_test(
    nr_blocks: u64,
    nr_contexts: usize,
    mut oracle: BitmapOracle,
    nr_blocks_to_allocate: u64,
) -> Vec<AllocationContext> {
    let nr_nodes = 255;
    let mut allocator = Allocator::new(nr_blocks, nr_nodes);

    let mut contexts = Vec::new();
    for _i in 0..nr_contexts {
        contexts.push(AllocationContext::new(allocator.get_context()));
    }

    let nr_prealloc = oracle.allocated.len();

    for i in 0..nr_blocks_to_allocate {
        let context = &mut contexts[(i % nr_contexts as u64) as usize];
        context_alloc(context, &mut allocator, &mut oracle).unwrap();
    }

    let mut total_nr_allocated = 0;
    for (i, context) in contexts.iter_mut().enumerate() {
        allocator.put_context(context.inner.take().unwrap());
        total_nr_allocated += context.blocks.len() as u64;

        // verify the number of blocks allocated per context
        let mut expected = nr_blocks_to_allocate / nr_contexts as u64;
        if (i as u64) < nr_blocks_to_allocate % (nr_contexts as u64) {
            expected += 1;
        }
        assert!(context.blocks.len() as u64 == expected);
    }

    let nr_allocated = oracle.allocated.len();
    assert!(total_nr_allocated == nr_blocks_to_allocate);
    assert!(nr_allocated - nr_prealloc == nr_blocks_to_allocate);

    contexts
}

fn do_reset_test(nr_contexts: usize) {
    let nr_blocks = 1024;
    let mut allocator = Allocator::new(nr_blocks, 1);

    let mut oracle = BitmapOracle::new();
    preallocate_linear(&mut oracle.allocated, nr_blocks - nr_contexts as u64, 0);

    let mut contexts = Vec::new();
    for _i in 0..nr_contexts {
        contexts.push(AllocationContext::new(allocator.get_context()));
    }

    for context in &mut contexts {
        assert!(matches!(
            context_alloc(context, &mut allocator, &mut oracle),
            Ok(Some(_))
        ));
    }

    for context in &mut contexts {
        let ctx = context.inner.unwrap();
        assert!(allocator.context_extent(ctx).is_none());
    }
}

fn do_remove_holders_test(reorder: &dyn Fn(&mut Vec<AllocationContext>)) {
    let nr_blocks = 1024;
    let mut allocator = Allocator::new(nr_blocks, 1);

    let mut oracle = BitmapOracle::new();

    let mut contexts = Vec::new();
    let nr_contexts = 3;
    for _i in 0..nr_contexts {
        contexts.push(AllocationContext::new(allocator.get_context()));
    }

    for context in &mut contexts {
        assert!(matches!(
            context_alloc(context, &mut allocator, &mut oracle),
            Ok(Some(_))
        ));
    }

    reorder(&mut contexts);

    for mut context in contexts {
        allocator.put_context(context.inner.take().unwrap());
    }

    assert!(!allocator.has_holders());
}

#[test]
fn test_prealloc_linear_start() {
    let nr_blocks = 1024;
    let nr_contexts = 16;
    let mut oracle = BitmapOracle::new();
    let nr_prealloc = nr_blocks / 5;

    preallocate_linear(&mut oracle.allocated, nr_prealloc, 0);

    do_allocation_test(nr_blocks, nr_contexts, oracle, nr_blocks / 2);
}

#[test]
fn test_prealloc_linear_middle() {
    let nr_blocks = 1024;
    let nr_contexts = 16;
    let mut oracle = BitmapOracle::new();
    let nr_prealloc = nr_blocks / 5;

    preallocate_linear(&mut oracle.allocated, nr_prealloc, 100);

    do_allocation_test(nr_blocks, nr_contexts, oracle, nr_blocks / 2);
}

#[test]
fn test_prealloc_linear_end() {
    let nr_blocks = 1024;
    let nr_contexts = 16;
    let mut oracle = BitmapOracle::new();
    let nr_prealloc = nr_blocks / 5;

    preallocate_linear(&mut oracle.allocated, nr_prealloc, nr_blocks - nr_prealloc);

    do_allocation_test(nr_blocks, nr_contexts, oracle, nr_blocks / 2);
}

#[test]
fn test_prealloc_random() {
    let nr_blocks = 1024;
    let nr_contexts = 16;
    let mut oracle = BitmapOracle::new();
    let nr_prealloc = nr_blocks / 5;

    preallocate_random(&mut oracle.allocated, nr_prealloc, 0..nr_blocks);

    do_allocation_test(nr_blocks, nr_contexts, oracle, nr_blocks / 2);
}

#[test]
fn test_non_power_of_two_blocks() {
    let nr_blocks = 1031;
    let nr_contexts = 16;
    let oracle = BitmapOracle::new();

    let contexts = do_allocation_test(nr_blocks, nr_contexts, oracle, nr_blocks);

    // every block was issued exactly once
    let mut all: Vec<u64> = contexts.iter().flat_map(|c| c.blocks.clone()).collect();
    all.sort();
    let expected: Vec<u64> = (0..nr_blocks).collect();
    assert_eq!(all, expected);
}

#[test]
fn alloc_no_space() {
    let mut oracle = BitmapOracle::new();

    let nr_blocks = 1024;
    let nr_nodes = 1;
    let mut allocator = Allocator::new(nr_blocks, nr_nodes);
    let mut context = AllocationContext::new(allocator.get_context());

    while let Ok(Some(_)) = context_alloc(&mut context, &mut allocator, &mut oracle) {}

    assert!(matches!(
        context_alloc(&mut context, &mut allocator, &mut oracle),
        Ok(None)
    ));
}

#[test]
fn alloc_after_reset() {
    let nr_blocks = 1024;
    let mut oracle = BitmapOracle::new();
    let nr_prealloc = nr_blocks / 5;

    preallocate_linear(&mut oracle.allocated, nr_prealloc, 0);

    let nr_nodes = 1;
    let mut allocator = Allocator::new(nr_blocks, nr_nodes);
    let mut context = AllocationContext::new(allocator.get_context());

    while let Ok(Some(_)) = context_alloc(&mut context, &mut allocator, &mut oracle) {}

    assert!(context.blocks.len() as u64 == nr_blocks - nr_prealloc);

    oracle.allocated.remove_range(0..(nr_prealloc as u32));
    allocator.reset();

    while let Ok(Some(_)) = context_alloc(&mut context, &mut allocator, &mut oracle) {}

    assert!(context.blocks.len() as u64 == nr_blocks);
}

#[test]
fn alloc_after_resize() {
    let nr_blocks = 1024;
    let mut oracle = BitmapOracle::new();

    let nr_nodes = 1;
    let mut allocator = Allocator::new(nr_blocks, nr_nodes);
    let mut context = AllocationContext::new(allocator.get_context());

    while let Ok(Some(_)) = context_alloc(&mut context, &mut allocator, &mut oracle) {}

    assert!(context.blocks.len() as u64 == nr_blocks);

    let nr_blocks = 2048;
    allocator.resize(nr_blocks);

    while let Ok(Some(_)) = context_alloc(&mut context, &mut allocator, &mut oracle) {}

    assert!(context.blocks.len() as u64 == nr_blocks);
}

#[test]
fn reset_two_holders() {
    do_reset_test(2)
}

#[test]
fn reset_three_holders() {
    do_reset_test(3)
}

#[test]
fn remove_holders_backward() {
    // remove contexts, starting from the tail of the holders list
    do_remove_holders_test(&|_| {})
}

#[test]
fn remove_holders_forward() {
    // remove contexts, starting from the head of the holders list
    do_remove_holders_test(&|contexts| {
        contexts.swap(0, 2);
    })
}

#[test]
fn remove_holders_from_middle() {
    do_remove_holders_test(&|contexts| {
        let c = contexts.remove(0);
        contexts.push(c);
    })
}

#[test]
fn per_context_blocks_are_monotone() {
    // Between two invalidations of a context, the blocks it receives strictly
    // increase.  With a single context, its extent can only be invalidated by
    // its own calls, so whenever it still holds an extent from the previous
    // call the next block must be larger.
    let mut oracle = BitmapOracle::new();
    let mut allocator = Allocator::new(4096, 31);
    let ctx = allocator.get_context();

    let mut last: Option<u64> = None;
    for _ in 0..3000 {
        let got = allocator.allocate(ctx, &mut oracle).unwrap().unwrap();
        if let Some(prev) = last {
            assert!(got > prev);
        }
        last = if allocator.context_extent(ctx).is_some() {
            Some(got)
        } else {
            None
        };
    }
}

#[test]
fn total_accounting_fresh_oracle() {
    // After M successful allocations against a fresh oracle with K blocks
    // preallocated, the oracle has exactly M + K blocks set.
    let nr_blocks = 2048;
    let k = 100;
    let m = 700;
    let mut oracle = BitmapOracle::new();
    preallocate_linear(&mut oracle.allocated, k, 300);

    let mut allocator = Allocator::new(nr_blocks, 63);
    let ctx = allocator.get_context();
    let mut issued = Vec::new();
    for _ in 0..m {
        let b = allocator.allocate(ctx, &mut oracle).unwrap().unwrap();
        issued.push(b);
    }
    assert_eq!(oracle.allocated.len(), m + k);

    // exclusive issuance: no block was handed out twice
    issued.sort();
    issued.dedup();
    assert_eq!(issued.len() as u64, m);
}

#[test]
fn oracle_errors_are_propagated() {
    let mut allocator = Allocator::new(1024, 7);
    let ctx = allocator.get_context();
    let mut oracle = BrokenOracle;
    let r = allocator.allocate(ctx, &mut oracle);
    assert_eq!(r, Err(String::from("backing store unavailable")));
    // the context keeps the extent it was handed
    assert!(allocator.context_extent(ctx).is_some());
}

#[test]
fn contexts_forget_extents_on_resize() {
    let mut oracle = BitmapOracle::new();
    let mut allocator = Allocator::new(1024, 7);
    let a = allocator.get_context();
    let b = allocator.get_context();
    allocator.allocate(a, &mut oracle).unwrap().unwrap();
    allocator.allocate(b, &mut oracle).unwrap().unwrap();
    allocator.resize(2048);
    assert!(allocator.context_extent(a).is_none());
    assert!(allocator.context_extent(b).is_none());
    assert!(!allocator.has_holders());
    // both contexts can simply allocate again
    allocator.allocate(a, &mut oracle).unwrap().unwrap();
    allocator.allocate(b, &mut oracle).unwrap().unwrap();
}

#[test]
fn zero_blocks_is_out_of_space() {
    let mut oracle = BitmapOracle::new();
    let mut allocator = Allocator::new(0, 1);
    let ctx = allocator.get_context();
    assert!(matches!(allocator.allocate(ctx, &mut oracle), Ok(None)));
    assert!(matches!(allocator.allocate(ctx, &mut oracle), Ok(None)));
}
