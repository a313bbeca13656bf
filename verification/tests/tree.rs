use bsp_alloc::tree::{Node, Tree, NULL_NODE};

// Internal holder counts must be the sums of their children's.
fn check_nr_holders(tree: &Tree) {
    let root = tree.root();
    if root == NULL_NODE {
        return;
    }
    let mut stack = vec![root];
    while let Some(i) = stack.pop() {
        match tree.read_node(i) {
            Node::Internal(n) => {
                let lh = tree.read_node(n.left).nr_holders();
                let rh = tree.read_node(n.right).nr_holders();
                assert_eq!(n.holders, lh + rh);
                stack.push(n.left);
                stack.push(n.right);
            }
            Node::Leaf(_) => {}
        }
    }
}

// Pool conservation: free slots plus slots reachable from the root account
// for the whole pool.
fn check_pool_conservation(tree: &Tree) {
    let root = tree.root();
    let mut live = 0usize;
    if root != NULL_NODE {
        let mut stack = vec![root];
        while let Some(i) = stack.pop() {
            live += 1;
            if let Node::Internal(n) = tree.read_node(i) {
                stack.push(n.left);
                stack.push(n.right);
            }
        }
    }
    assert_eq!(tree.nr_free_nodes() + live, tree.nr_nodes());
}

fn drain(tree: &mut Tree, begin: u64) {
    let e = tree.read_extent(begin);
    tree.advance_cursor(begin, e.end);
}

#[test]
fn borrow_shared_extent() {
    let nr_blocks = 1024;
    let nr_nodes = 3;

    let mut extents = Vec::new();
    let mut tree = Tree::new(nr_blocks, nr_nodes);
    extents.push(tree.borrow().unwrap());
    extents.push(tree.borrow().unwrap());
    extents.push(tree.borrow().unwrap());
    extents.push(tree.borrow().unwrap());

    check_nr_holders(&tree);

    {
        let ext = tree.read_extent(extents[2]);
        assert!(ext.begin == 0);
        assert!(ext.end == 512);
        assert!(ext.cursor == 0);
    }

    {
        let ext = tree.read_extent(extents[3]);
        assert!(ext.begin == 512);
        assert!(ext.end == 1024);
        assert!(ext.cursor == 512);
    }
}

#[test]
fn release_extents_full() {
    let nr_blocks = 1024;
    let nr_nodes = 3;

    let mut extents = Vec::new();
    let mut tree = Tree::new(nr_blocks, nr_nodes);
    extents.push(tree.borrow().unwrap());
    extents.push(tree.borrow().unwrap());
    assert!(tree.nr_free_nodes() == 0);

    // consume and release the two leaves
    drain(&mut tree, extents[0]);
    tree.release(extents.remove(0));

    drain(&mut tree, extents[0]);
    tree.release(extents.remove(0));

    assert!(tree.borrow().is_none());
    assert!(tree.root() == NULL_NODE);
    assert!(tree.nr_free_nodes() == 3);
}

#[test]
fn release_shared_extent() {
    let nr_blocks = 1024;
    let nr_nodes = 3;

    let mut extents = Vec::new();
    let mut tree = Tree::new(nr_blocks, nr_nodes);
    extents.push(tree.borrow().unwrap());
    extents.push(tree.borrow().unwrap());
    extents.push(tree.borrow().unwrap());
    extents.push(tree.borrow().unwrap());

    tree.release(extents.remove(0));
    tree.release(extents.remove(0));
}

#[test]
fn reuse_node() {
    let nr_blocks = 1024;
    let nr_nodes = 3;

    let mut extents = Vec::new();
    let mut tree = Tree::new(nr_blocks, nr_nodes);
    extents.push(tree.borrow().unwrap());
    extents.push(tree.borrow().unwrap());
    assert!(tree.nr_free_nodes() == 0);

    // consume and release the left child
    drain(&mut tree, extents[0]);
    tree.release(extents.remove(0));
    assert!(tree.nr_free_nodes() == 2);

    // borrow a new extent that reuses the released nodes
    let ext = tree.borrow();
    assert!(ext.is_some());
    extents.push(ext.unwrap());
    assert!(tree.nr_free_nodes() == 0);

    {
        let ext = tree.read_extent(extents[0]);
        assert!(ext.begin == 512);
        assert!(ext.end == 768);
        assert!(ext.cursor == 512);
    }

    {
        let ext = tree.read_extent(extents[1]);
        assert!(ext.begin == 768);
        assert!(ext.end == 1024);
        assert!(ext.cursor == 768);
    }
}

#[test]
fn borrow_after_reset() {
    let nr_blocks = 1024;
    let nr_nodes = 3;

    let mut extents = Vec::new();
    let mut tree = Tree::new(nr_blocks, nr_nodes);
    extents.push(tree.borrow().unwrap());
    extents.push(tree.borrow().unwrap());
    assert!(tree.nr_free_nodes() == 0);

    extents.clear();
    tree.reset();

    extents.push(tree.borrow().unwrap());
    assert!(tree.nr_free_nodes() == 2);
    {
        let ext = tree.read_extent(extents[0]);
        assert!(ext.begin == 0);
        assert!(ext.end == nr_blocks);
        assert!(ext.cursor == 0);
    }

    extents.push(tree.borrow().unwrap());
    assert!(tree.nr_free_nodes() == 0);
    let div = nr_blocks / 2;
    {
        let ext = tree.read_extent(extents[0]);
        assert!(ext.begin == 0);
        assert!(ext.end == div);
        assert!(ext.cursor == ext.begin);
    }
    {
        let ext = tree.read_extent(extents[1]);
        assert!(ext.begin == div);
        assert!(ext.end == nr_blocks);
        assert!(ext.cursor == ext.begin);
    }
}

#[test]
fn borrow_after_resize() {
    let nr_blocks = 1024;
    let nr_nodes = 3;

    let mut extents = Vec::new();
    let mut tree = Tree::new(nr_blocks, nr_nodes);
    extents.push(tree.borrow().unwrap());
    extents.push(tree.borrow().unwrap());
    assert!(tree.nr_free_nodes() == 0);

    extents.clear();
    let nr_blocks = 2048;
    tree.resize(nr_blocks);

    extents.push(tree.borrow().unwrap());
    assert!(tree.nr_free_nodes() == 2);
    {
        let ext = tree.read_extent(extents[0]);
        assert!(ext.begin == 0);
        assert!(ext.end == nr_blocks);
        assert!(ext.cursor == 0);
    }

    extents.push(tree.borrow().unwrap());
    assert!(tree.nr_free_nodes() == 0);
    let div = nr_blocks / 2;
    {
        let ext = tree.read_extent(extents[0]);
        assert!(ext.begin == 0);
        assert!(ext.end == div);
        assert!(ext.cursor == ext.begin);
    }
    {
        let ext = tree.read_extent(extents[1]);
        assert!(ext.begin == div);
        assert!(ext.end == nr_blocks);
        assert!(ext.cursor == ext.begin);
    }
}

#[test]
fn pool_is_conserved_through_borrows_and_releases() {
    let mut tree = Tree::new(4096, 15);
    check_pool_conservation(&tree);
    let mut extents = Vec::new();
    for _ in 0..6 {
        extents.push(tree.borrow().unwrap());
        check_pool_conservation(&tree);
        check_nr_holders(&tree);
    }
    for begin in extents {
        drain(&mut tree, begin);
        tree.release(begin);
        check_pool_conservation(&tree);
        check_nr_holders(&tree);
    }
}

#[test]
fn split_halves_the_free_capacity() {
    // One holder on [0, 1024); the second borrow splits at the midpoint of
    // the remaining capacity.
    let mut tree = Tree::new(1024, 5);
    let first = tree.borrow().unwrap();
    assert_eq!(first, 0);
    tree.advance_cursor(first, 100);
    let second = tree.borrow().unwrap();
    // mid = 100 + (1024 - 100) / 2 = 562
    assert_eq!(second, 562);
    let left = tree.read_extent(first);
    assert_eq!((left.begin, left.cursor, left.end), (0, 100, 562));
    let right = tree.read_extent(second);
    assert_eq!((right.begin, right.cursor, right.end), (562, 562, 1024));
}

#[test]
fn small_leaves_are_shared_not_split() {
    // A leaf with at most 16 free blocks is never split.
    let mut tree = Tree::new(16, 8);
    let first = tree.borrow().unwrap();
    let second = tree.borrow().unwrap();
    assert_eq!(first, 0);
    assert_eq!(second, 0);
    let node = tree.read_node(tree.root());
    assert_eq!(node.nr_holders(), 2);
}

#[test]
fn huge_address_space() {
    let mut tree = Tree::new(u64::MAX, 3);
    let first = tree.borrow().unwrap();
    let second = tree.borrow().unwrap();
    assert_eq!(first, 0);
    assert_eq!(second, u64::MAX / 2);
    let left = tree.read_extent(first);
    assert_eq!(left.end, u64::MAX / 2);
    let right = tree.read_extent(second);
    assert_eq!(right.end, u64::MAX);
}
