use rtsched::rbtree::{RBTree, RbNode};

fn drain(t: &mut RBTree) -> Vec<(u64, usize)> {
    let mut out = Vec::new();
    while let Some(e) = t.pop_first() {
        out.push(e);
    }
    out
}

#[test]
fn empty_tree() {
    let t = RBTree::new();
    assert!(t.is_empty());
    assert_eq!(t.len(), 0);
    assert_eq!(t.first(), None);
    assert_eq!(t.last(), None);
    assert_eq!(t.root(), None);
    assert_eq!(t.next(1, 1), None);
}

#[test]
fn insert_orders_by_key() {
    let mut t = RBTree::new();
    t.insert(30, 1);
    t.insert(10, 2);
    t.insert(20, 3);
    assert_eq!(t.len(), 3);
    assert!(!t.is_empty());
    assert_eq!(t.first(), Some((10, 2)));
    assert_eq!(t.last(), Some((30, 1)));
    assert_eq!(t.next(10, 2), Some((20, 3)));
    assert_eq!(t.next(20, 3), Some((30, 1)));
    assert_eq!(t.next(30, 1), None);
    assert!(t.root().is_some());
}

#[test]
fn equal_keys_ordered_by_id() {
    let mut t = RBTree::new();
    t.insert(5, 4);
    t.insert(3, 5);
    t.insert(5, 1);
    t.insert(5, 3);
    t.insert(3, 2);
    assert_eq!(drain(&mut t), vec![(3, 2), (3, 5), (5, 1), (5, 3), (5, 4)]);
}

#[test]
fn later_smaller_id_goes_first() {
    let mut t = RBTree::new();
    t.insert(0, 1);
    t.insert(0, 0);
    assert_eq!(t.first(), Some((0, 0)));
    assert_eq!(t.last(), Some((0, 1)));
    assert_eq!(t.next(0, 0), Some((0, 1)));
    assert_eq!(t.next(0, 1), None);
    assert_eq!(t.pop_first(), Some((0, 0)));
}

#[test]
fn root_of_small_trees() {
    let mut t = RBTree::new();
    t.insert(10, 0);
    assert_eq!(t.root(), Some((10, 0)));
    t.insert(20, 1);
    assert_eq!(t.root(), Some((10, 0)));
    t.insert(30, 2);
    assert_eq!(t.root(), Some((20, 1)));
    assert!(!t.remove(40, 3));
    assert_eq!(t.root(), Some((20, 1)));
    assert!(t.remove(20, 1));
    assert_eq!(t.len(), 2);
    assert_eq!(t.root(), Some((30, 2)));
}

#[test]
fn remove_present_and_absent() {
    let mut t = RBTree::new();
    for i in 0..10usize {
        t.insert((i as u64) * 7 % 10, i);
    }
    assert!(t.contains(4, 2));
    assert!(t.remove(4, 2));
    assert!(!t.contains(4, 2));
    assert!(!t.remove(4, 2));
    assert!(!t.remove(99, 0));
    assert_eq!(t.len(), 9);
    let keys: Vec<u64> = drain(&mut t).iter().map(|e| e.0).collect();
    assert_eq!(keys, vec![0, 1, 2, 3, 5, 6, 7, 8, 9]);
}

#[test]
fn remove_undoes_insert() {
    let mut t = RBTree::new();
    for i in 0..20usize {
        t.insert((i as u64 * 13) % 7, i);
    }
    let mut before = Vec::new();
    let mut cur = t.first();
    while let Some(e) = cur {
        before.push(e);
        cur = t.next(e.0, e.1);
    }
    t.insert(3, 100);
    assert!(t.remove(3, 100));
    assert_eq!(drain(&mut t), before);
}

#[test]
fn many_entries_come_out_sorted() {
    let mut t = RBTree::new();
    let mut x: u64 = 12345;
    let mut expected = Vec::new();
    for i in 0..2000usize {
        x = x.wrapping_mul(6364136223846793005).wrapping_add(1442695040888963407);
        let k = (x >> 33) % 500;
        t.insert(k, i);
        expected.push((k, i));
    }
    for i in (0..2000usize).step_by(3) {
        assert!(t.remove(expected[i].0, expected[i].1));
    }
    let mut kept: Vec<(u64, usize)> = expected
        .iter()
        .enumerate()
        .filter(|(i, _)| i % 3 != 0)
        .map(|(_, e)| *e)
        .collect();
    kept.sort_by_key(|e| (e.0, e.1));
    assert_eq!(t.len(), kept.len());
    assert_eq!(drain(&mut t), kept);
}

#[test]
fn lower_keys_saturates_and_keeps_order() {
    let mut t = RBTree::new();
    t.insert(3, 1);
    t.insert(8, 2);
    t.insert(5, 3);
    t.lower_keys(4);
    assert_eq!(drain(&mut t), vec![(0, 1), (1, 3), (4, 2)]);
}

#[test]
fn lower_keys_orders_zero_keys_by_id() {
    let mut t = RBTree::new();
    t.insert(3, 1);
    t.insert(2, 5);
    t.insert(9, 0);
    t.lower_keys(4);
    assert_eq!(drain(&mut t), vec![(0, 1), (0, 5), (5, 0)]);
    let mut u = RBTree::new();
    u.insert(1, 2);
    u.insert(4, 0);
    u.lower_keys(10);
    assert_eq!(drain(&mut u), vec![(0, 0), (0, 2)]);
}

#[test]
fn pop_first_empties() {
    let mut t = RBTree::new();
    assert_eq!(t.pop_first(), None);
    t.insert(1, 1);
    assert_eq!(t.pop_first(), Some((1, 1)));
    assert!(t.is_empty());
}

#[test]
fn node_links() {
    let mut n = RbNode::new(7, 1);
    assert!(!n.is_linked());
    n.reset_links();
    assert!(!n.is_linked());
}

#[test]
fn middle_entry_becomes_root() {
    let mut t = RBTree::new();
    t.insert(3, 0);
    t.insert(1, 1);
    t.insert(2, 2);
    assert_eq!(t.root(), Some((2, 2)));
    assert_eq!(t.first(), Some((1, 1)));
    assert_eq!(t.last(), Some((3, 0)));
}

#[test]
fn removed_root_taken_over_by_successor() {
    let mut t = RBTree::new();
    t.insert(2, 0);
    t.insert(1, 1);
    t.insert(3, 2);
    assert!(t.remove(2, 0));
    assert_eq!(t.root(), Some((3, 2)));
    assert_eq!(t.first(), Some((1, 1)));
    assert_eq!(t.next(1, 1), Some((3, 2)));
    assert_eq!(t.next(3, 2), None);
}
