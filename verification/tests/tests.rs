use abandoning_reorg::InvariantViolation;
use abandoning_reorg::Organizer;
use abandoning_reorg::ReorgNode;

/// Builds an organizer filled with a single chain of records at heights
/// 1..2000, rooted at a genesis record at height 0.
fn create_test_filled() -> Organizer<()> {
    let genesis = ReorgNode::new(0, 0, 0, 999999999, ());
    let mut cb = Organizer::new(255, false);
    cb.init(genesis);
    for i in 1..2000 {
        cb.insert(ReorgNode::new(i, i, 0, i - 1, ()), None).unwrap();
    }
    cb
}

/// Test visitor.
fn callback(node: &ReorgNode<()>) {
    println!("{:?} : {}", node.key(), node.height());
}

#[test]
fn new_test() {
    Organizer::<()>::new(255, false);
}

#[test]
fn default_test() {
    Organizer::<()>::default();
}

#[test]
fn new_with_test() {
    Organizer::<()>::new_with(ReorgNode::default(), 255, false);
}

#[test]
fn insert_test() {
    let genesis = ReorgNode::new(0, 0, 0, 999999999, ());
    let mut cb = Organizer::new(255, false);
    cb.init(genesis);
    for i in 1..2000 {
        cb.insert(ReorgNode::new(i, i, 0, i - 1, ()), None).unwrap();
    }
    // the retention window has moved with the frontier
    assert_eq!(cb.allowed_oldest(), 1744);
    // records below the advanced root are no longer retrievable
    assert!(cb.node(1700).is_none());
    assert!(cb.node(1745).is_some());
}

#[test]
fn callback_test() {
    let genesis = ReorgNode::new(0, 0, 0, 999999999, ());
    let mut cb = Organizer::new(255, false);
    cb.init(genesis);
    for i in 1..2000 {
        cb.insert(ReorgNode::new(i, i, 0, i - 1, ()), None).unwrap();
    }
    let r = cb.apply_callback(Some(1999), Some(1998), callback);
    assert!(r.is_ok());
}

#[test]
fn fail_test() {
    let org = create_test_filled();
    let r = org.apply_callback(Some(4000), None, callback);
    assert!(matches!(r, Err(InvariantViolation::MissingHead)));
}

#[test]
fn test() {
    let genesis = ReorgNode::new(0, 0, 0, 999999999, ());
    let mut cb = Organizer::new(255, false);
    cb.init(genesis);
    for i in 1..2000 {
        cb.insert(ReorgNode::new(i, i, 0, i - 1, ()), None).unwrap();
    }
    // frontier at 1999, root advanced one step at a time to 1999 - 255
    assert_eq!(cb.allowed_oldest(), 1744);
    assert_eq!(cb.check_height_to_key_diff(), vec![1744]);
    assert_eq!(cb.highest_nodes().unwrap(), &vec![1999]);
    for i in 0..10 {
        cb.insert(ReorgNode::new(2000 + i, 1996, 0, 1995, ()), None).unwrap();
    }
    // the frontier is the maximum accepted height, so the branches at 1996
    // do not move it back and the chain tip remains the single tip
    assert_eq!(cb.allowed_oldest(), 1744);
    assert_eq!(cb.highest_nodes().unwrap(), &vec![1999]);
    println!(
        "This should be the same as the root and nothing else\n{:?}",
        cb.check_height_to_key_diff()
    );
    println!("Highest node(s): {:?}", cb.highest_nodes().unwrap());
    for i in 0..1000 {
        cb.insert(ReorgNode::new(2010 + i, 1997 + i, 0, 2009 + i, ()), None).unwrap();
    }
    // the extended branch's child-of-root won the advance; the nine losing
    // branches and the old chain tail were reclaimed
    assert!(cb.node(1999).is_none());
    for i in 0..9 {
        assert!(cb.node(2000 + i).is_none());
    }
    assert_eq!(cb.check_height_to_key_diff(), vec![2754]);
    let r = cb.apply_callback(Some(3009), Some(3000), callback);
    assert!(r.is_ok());
    println!("stored: {}", cb.stored_keys().len());
    println!("deleting branch");
    let removed = cb.delete_children(2850);
    assert_eq!(removed.len(), 160);
    assert_eq!(cb.stored_keys().len(), 95);
}

#[test]
fn branch_by_length_test() {
    // a root with two children: branch a, five records long, and branch b,
    // three records long, both ending at the frontier height
    let root = ReorgNode::new(100, 1000, 0, 999999999, ());
    let mut cb = Organizer::new(255, false);
    cb.init(root);
    cb.insert(ReorgNode::new(11, 1001, 1, 100, ()), None).unwrap();
    cb.insert(ReorgNode::new(21, 1002, 100, 100, ()), None).unwrap();
    cb.insert(ReorgNode::new(12, 1002, 1, 11, ()), None).unwrap();
    cb.insert(ReorgNode::new(13, 1003, 1, 12, ()), None).unwrap();
    cb.insert(ReorgNode::new(14, 1004, 1, 13, ()), None).unwrap();
    cb.insert(ReorgNode::new(15, 1005, 1, 14, ()), None).unwrap();
    cb.insert(ReorgNode::new(22, 1003, 100, 21, ()), None).unwrap();
    cb.insert(ReorgNode::new(23, 1005, 100, 22, ()), None).unwrap();
    // by length the five-record branch wins
    assert_eq!(cb.find_longest_branch(Some(false)).unwrap(), 11);
    // by value the shorter branch, worth more, wins
    assert_eq!(cb.find_longest_branch(Some(true)).unwrap(), 21);
}

#[test]
fn branch_by_value_default_test() {
    let root = ReorgNode::new(100, 1000, 0, 999999999, ());
    let mut cb = Organizer::new(255, false);
    cb.init(root);
    cb.insert(ReorgNode::new(11, 1001, 1, 100, ()), None).unwrap();
    cb.insert(ReorgNode::new(21, 1002, 100, 100, ()), None).unwrap();
    cb.insert(ReorgNode::new(12, 1002, 1, 11, ()), None).unwrap();
    cb.insert(ReorgNode::new(13, 1003, 1, 12, ()), None).unwrap();
    cb.insert(ReorgNode::new(14, 1004, 1, 13, ()), None).unwrap();
    cb.insert(ReorgNode::new(15, 1005, 1, 14, ()), None).unwrap();
    cb.insert(ReorgNode::new(22, 1003, 100, 21, ()), None).unwrap();
    cb.insert(ReorgNode::new(23, 1005, 100, 22, ()), None).unwrap();
    // the configured default decides when no override is given
    assert_eq!(cb.find_longest_branch(None).unwrap(), 11);
    cb.set_value_based(true);
    assert_eq!(cb.find_longest_branch(None).unwrap(), 21);
}

#[test]
fn orphan_recovery_test() {
    let root = ReorgNode::new(0, 0, 0, 999999999, ());
    let mut cb = Organizer::new(255, false);
    cb.init(root);
    // the child arrives before its parent and waits in the buffer
    cb.insert(ReorgNode::new(2, 2, 0, 1, ()), None).unwrap();
    assert!(cb.node(2).is_none());
    // the parent arrives; the draining pass adopts the child
    cb.insert(ReorgNode::new(1, 1, 0, 0, ()), None).unwrap();
    assert!(cb.node(1).is_some());
    assert!(cb.node(2).is_some());
    assert_eq!(cb.node(1).unwrap().children(), &vec![2]);
}

#[test]
fn delete_subtree_test() {
    let root = ReorgNode::new(10, 1000, 0, 999999999, ());
    let mut cb = Organizer::new(255, false);
    cb.init(root);
    cb.insert(ReorgNode::new(11, 1001, 0, 10, ()), None).unwrap();
    cb.insert(ReorgNode::new(12, 1002, 0, 11, ()), None).unwrap();
    cb.insert(ReorgNode::new(13, 1003, 0, 11, ()), None).unwrap();
    cb.insert(ReorgNode::new(14, 1004, 0, 12, ()), None).unwrap();
    let removed = cb.delete_children(12);
    let mut keys: Vec<u64> = removed.iter().map(|n| n.key()).collect();
    keys.sort();
    assert_eq!(keys, vec![12, 14]);
    assert!(cb.node(12).is_none());
    assert!(cb.node(14).is_none());
    assert!(cb.node(11).is_some());
    assert!(cb.node(13).is_some());
    // the deleted key is struck from its parent's child list
    assert_eq!(cb.node(11).unwrap().children(), &vec![13]);
    // deleting an absent key is a silent no-op
    assert_eq!(cb.delete_children(12).len(), 0);
}

#[test]
fn missing_frontier_bucket_test() {
    let cb = Organizer::<()>::new(255, false);
    assert!(matches!(
        cb.find_longest_branch(None),
        Err(InvariantViolation::MissingFrontierBucket)
    ));
    assert!(matches!(cb.highest_nodes(), Err(InvariantViolation::MissingFrontierBucket)));
}

#[test]
fn missing_root_child_test() {
    // the genesis names 999 as its never-dereferenced parent; a record
    // keyed 999 becomes the root's child and is then removed again by the
    // stale-parent cleanup, leaving the root listing a child that is gone
    let genesis = ReorgNode::new(100, 0, 0, 999, ());
    let mut cb = Organizer::new(1, false);
    cb.init(genesis);
    cb.insert(ReorgNode::new(999, 1, 0, 100, ()), None).unwrap();
    assert!(cb.node(999).is_none());
    let r = cb.insert(ReorgNode::new(2, 2, 0, 999, ()), None);
    assert!(matches!(r, Err(InvariantViolation::MissingRootChild)));
}

#[test]
fn diagnostics_healthy_test() {
    let root = ReorgNode::new(10, 1000, 0, 999999999, ());
    let mut cb = Organizer::new(255, false);
    cb.init(root);
    cb.insert(ReorgNode::new(11, 1001, 0, 10, ()), None).unwrap();
    cb.insert(ReorgNode::new(12, 1002, 0, 11, ()), None).unwrap();
    // the height index knows every stored record and the root; only the
    // root is not in the store
    assert_eq!(cb.check_height_to_key_diff(), vec![10]);
}

#[test]
fn too_old_dropped_test() {
    let mut cb = create_test_filled();
    // a record at or below the allowed oldest height is dropped silently
    cb.insert(ReorgNode::new(5000, 1744, 0, 1743, ()), None).unwrap();
    assert!(cb.node(5000).is_none());
    // a record with no stored parent and nothing to add to the frontier is
    // dropped silently, not buffered
    cb.insert(ReorgNode::new(5001, 1900, 0, 4999, ()), None).unwrap();
    assert!(cb.node(5001).is_none());
    cb.insert(ReorgNode::new(4999, 1901, 0, 1900, ()), None).unwrap();
    assert!(cb.node(5001).is_none());
}

#[test]
fn walk_without_head_test() {
    let root = ReorgNode::new(10, 1000, 0, 999999999, ());
    let mut cb = Organizer::new(255, false);
    cb.init(root);
    // the single key at the frontier is the root itself, which is not
    // stored: resolving it as the walk's head is fatal
    let r = cb.apply_callback(None, None, callback);
    assert!(matches!(r, Err(InvariantViolation::MissingHead)));
    cb.insert(ReorgNode::new(11, 1001, 0, 10, ()), None).unwrap();
    // exactly one stored tip: the walk starts there
    assert!(cb.apply_callback(None, None, callback).is_ok());
    cb.insert(ReorgNode::new(12, 1002, 0, 11, ()), None).unwrap();
    cb.insert(ReorgNode::new(13, 1002, 0, 11, ()), None).unwrap();
    // two tips: the walk has no head and quietly does nothing
    assert!(cb.apply_callback(None, None, callback).is_ok());
}
