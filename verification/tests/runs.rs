use bsp_alloc::runs::to_runs;

#[test]
fn single_block_is_one_run() {
    assert_eq!(to_runs(&[7]), vec![(7, 7)]);
}

#[test]
fn consecutive_blocks_collapse() {
    assert_eq!(to_runs(&[0, 1, 2, 3]), vec![(0, 3)]);
}

#[test]
fn gaps_start_new_runs() {
    assert_eq!(
        to_runs(&[1, 2, 3, 7, 8, 20]),
        vec![(1, 3), (7, 8), (20, 20)]
    );
}

#[test]
fn descending_blocks_never_merge() {
    assert_eq!(to_runs(&[5, 3]), vec![(5, 5), (3, 3)]);
}

#[test]
fn runs_at_the_numeric_limit() {
    assert_eq!(
        to_runs(&[u64::MAX - 1, u64::MAX]),
        vec![(u64::MAX - 1, u64::MAX)]
    );
}
