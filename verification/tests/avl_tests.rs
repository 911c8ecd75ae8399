use paxos::avl::{cmp, go_left, go_right, insert, is_null, rotate_left, rotate_right, search, zip, Avl, AvlTree, Path};
use std::cmp::Ordering;

fn leaf(key: i32, v: i32) -> AvlTree<i32, i32> {
    Some(Box::new(Avl { key, v, balance: 0, right: None, left: None }))
}

fn pairs(t: &AvlTree<i32, i32>, out: &mut Vec<(i32, i32)>) {
    if let Some(n) = t {
        pairs(&n.left, out);
        out.push((n.key, n.v));
        pairs(&n.right, out);
    }
}

fn sorted_pairs(t: &AvlTree<i32, i32>) -> Vec<(i32, i32)> {
    let mut out = Vec::new();
    pairs(t, &mut out);
    out.sort();
    out
}

#[test]
fn insert_builds_the_demo_tree() {
    let t0 = insert(1, 4, insert(8, 2, insert(6, 1, None)));
    let root = t0.as_ref().unwrap();
    assert_eq!((root.key, root.v, root.balance), (6, 1, 0));
    let l = root.left.as_ref().unwrap();
    assert_eq!((l.key, l.v, l.balance), (8, 2, 0));
    assert!(l.left.is_none() && l.right.is_none());
    let r = root.right.as_ref().unwrap();
    assert_eq!((r.key, r.v, r.balance), (1, 4, 0));
    assert!(r.left.is_none() && r.right.is_none());
}

#[test]
fn insert_into_empty_gives_a_leaf() {
    let t = insert(5, 50, None);
    let n = t.unwrap();
    assert_eq!((n.key, n.v, n.balance), (5, 50, 0));
    assert!(n.left.is_none() && n.right.is_none());
}

#[test]
fn insert_adds_exactly_the_new_pair() {
    let mut t: AvlTree<i32, i32> = None;
    let keys = [50, 20, 70, 10, 30, 60, 80, 25];
    for k in keys.iter() {
        t = insert(*k, k * 10, t);
    }
    let mut expected: Vec<(i32, i32)> = keys.iter().map(|k| (*k, k * 10)).collect();
    expected.sort();
    assert_eq!(sorted_pairs(&t), expected);
}

#[test]
fn search_finds_stored_keys_and_keeps_the_tree() {
    let t = insert(1, 4, insert(8, 2, insert(6, 1, None)));
    let loc = search(&8, (t, Path::Top));
    assert!(!is_null(&loc));
    assert_eq!(loc.0.as_ref().unwrap().key, 8);
    assert_eq!(loc.0.as_ref().unwrap().v, 2);
    let back = zip(loc);
    assert_eq!(sorted_pairs(&back), vec![(1, 4), (6, 1), (8, 2)]);
    let loc = search(&7, (back, Path::Top));
    assert!(is_null(&loc));
    let back = zip(loc);
    assert_eq!(sorted_pairs(&back), vec![(1, 4), (6, 1), (8, 2)]);
}

#[test]
fn read_after_insert_finds_the_value() {
    let t = insert(3, 30, insert(9, 90, insert(6, 60, None)));
    let t = insert(4, 40, t);
    let loc = search(&4, (t, Path::Top));
    assert_eq!(loc.0.as_ref().unwrap().v, 40);
    let t = zip(loc);
    for (k, v) in [(3, 30), (9, 90), (6, 60)].iter() {
        let loc = search(k, (t.clone_tree(), Path::Top));
        assert_eq!(loc.0.as_ref().unwrap().v, *v);
    }
}

trait CloneTree {
    fn clone_tree(&self) -> Self;
}

impl CloneTree for AvlTree<i32, i32> {
    fn clone_tree(&self) -> Self {
        match self {
            None => None,
            Some(n) => Some(Box::new(Avl {
                key: n.key,
                v: n.v,
                balance: n.balance,
                right: n.right.clone_tree(),
                left: n.left.clone_tree(),
            })),
        }
    }
}

#[test]
fn cmp_compares_the_focus_key_with_the_key() {
    let loc = (leaf(6, 1), Path::Top);
    assert_eq!(cmp(&8, &loc), Ordering::Less);
    assert_eq!(cmp(&6, &loc), Ordering::Equal);
    assert_eq!(cmp(&1, &loc), Ordering::Greater);
}

#[test]
fn moving_the_focus_keeps_the_tree() {
    let t = insert(1, 4, insert(8, 2, insert(6, 1, None)));
    let loc = go_left((t, Path::Top));
    assert_eq!(loc.0.as_ref().unwrap().key, 8);
    match &loc.1 {
        Path::RNode { key, v, balance, t, .. } => {
            assert_eq!((*key, *v, *balance), (6, 1, 0));
            assert_eq!(t.as_ref().unwrap().key, 1);
        },
        _ => panic!("expected a left turn"),
    }
    let t = zip(loc);
    let loc = go_right((t, Path::Top));
    assert_eq!(loc.0.as_ref().unwrap().key, 1);
    match &loc.1 {
        Path::LNode { key, t, .. } => {
            assert_eq!(*key, 6);
            assert_eq!(t.as_ref().unwrap().key, 8);
        },
        _ => panic!("expected a right turn"),
    }
    let t = zip(loc);
    assert_eq!(sorted_pairs(&t), vec![(1, 4), (6, 1), (8, 2)]);
    let root = t.unwrap();
    assert_eq!(root.key, 6);
    assert_eq!(root.left.unwrap().key, 8);
    assert_eq!(root.right.unwrap().key, 1);
}

#[test]
fn is_null_tells_an_empty_focus() {
    let loc: (AvlTree<i32, i32>, Path<i32, i32>) = (None, Path::Top);
    assert!(is_null(&loc));
    assert!(!is_null(&(leaf(1, 1), Path::Top)));
}

#[test]
fn rotate_right_with_left_leaning_child() {
    let l = Box::new(Avl { key: 8, v: 80, balance: -1, left: leaf(9, 90), right: leaf(7, 70) });
    let t = Box::new(Avl { key: 6, v: 60, balance: -1, left: Some(l), right: leaf(1, 10) });
    let before = sorted_pairs(&Some(t.clone_box()));
    let r = rotate_right(t);
    assert_eq!((r.key, r.balance), (8, 0));
    assert_eq!(r.left.as_ref().unwrap().key, 9);
    let inner = r.right.as_ref().unwrap();
    assert_eq!((inner.key, inner.balance), (6, 0));
    assert_eq!(inner.left.as_ref().unwrap().key, 7);
    assert_eq!(inner.right.as_ref().unwrap().key, 1);
    assert_eq!(sorted_pairs(&Some(r)), before);
}

#[test]
fn rotate_right_with_even_child() {
    let l = Box::new(Avl { key: 8, v: 80, balance: 0, left: leaf(9, 90), right: leaf(7, 70) });
    let t = Box::new(Avl { key: 6, v: 60, balance: -1, left: Some(l), right: None });
    let r = rotate_right(t);
    assert_eq!((r.key, r.balance), (8, 1));
    assert_eq!(r.right.as_ref().unwrap().balance, -1);
}

#[test]
fn rotate_left_with_right_leaning_child() {
    let rc = Box::new(Avl { key: 3, v: 30, balance: 1, left: leaf(4, 40), right: leaf(2, 20) });
    let t = Box::new(Avl { key: 6, v: 60, balance: 1, left: leaf(8, 80), right: Some(rc) });
    let before = sorted_pairs(&Some(t.clone_box()));
    let r = rotate_left(t);
    assert_eq!((r.key, r.balance), (3, 0));
    assert_eq!(r.right.as_ref().unwrap().key, 2);
    let inner = r.left.as_ref().unwrap();
    assert_eq!((inner.key, inner.balance), (6, 0));
    assert_eq!(inner.left.as_ref().unwrap().key, 8);
    assert_eq!(inner.right.as_ref().unwrap().key, 4);
    assert_eq!(sorted_pairs(&Some(r)), before);
}

#[test]
fn rotate_left_with_even_child() {
    let rc = Box::new(Avl { key: 3, v: 30, balance: 0, left: None, right: None });
    let t = Box::new(Avl { key: 6, v: 60, balance: 1, left: None, right: Some(rc) });
    let r = rotate_left(t);
    assert_eq!((r.key, r.balance), (3, -1));
    assert_eq!(r.left.as_ref().unwrap().balance, 1);
}

trait CloneBox {
    fn clone_box(&self) -> Self;
}

impl CloneBox for Box<Avl<i32, i32>> {
    fn clone_box(&self) -> Self {
        Box::new(Avl {
            key: self.key,
            v: self.v,
            balance: self.balance,
            right: self.right.clone_tree(),
            left: self.left.clone_tree(),
        })
    }
}

#[test]
fn rotate_left_undoes_rotate_right_up_to_balances() {
    let l = Box::new(Avl { key: 8, v: 80, balance: -1, left: leaf(9, 90), right: leaf(7, 70) });
    let t = Box::new(Avl { key: 6, v: 60, balance: -1, left: Some(l), right: leaf(1, 10) });
    let back = rotate_left(rotate_right(t));
    assert_eq!((back.key, back.v), (6, 60));
    let l = back.left.as_ref().unwrap();
    assert_eq!((l.key, l.v), (8, 80));
    assert_eq!(l.left.as_ref().unwrap().key, 9);
    assert_eq!(l.right.as_ref().unwrap().key, 7);
    assert_eq!(back.right.as_ref().unwrap().key, 1);
    assert_eq!((back.balance, l.balance), (-1, 1));
}
