use red_black_tree::delete::delete;
use red_black_tree::insert::insert;
use red_black_tree::{Color, Node, RedBlackTree};

fn build(keys: &[i32]) -> RedBlackTree {
    let mut t = RedBlackTree::new();
    for &k in keys {
        insert(&mut t, k);
    }
    t
}

fn in_order(t: &Option<Box<Node>>, out: &mut Vec<i32>) {
    if let Some(n) = t {
        in_order(&n.left, out);
        out.push(n.val);
        in_order(&n.right, out);
    }
}

fn keys_of(t: &RedBlackTree) -> Vec<i32> {
    let mut out = Vec::new();
    in_order(&t.root, &mut out);
    out
}

/// Black height of the subtree, or a panic where an invariant fails.
fn check_subtree(t: &Option<Box<Node>>) -> usize {
    match t {
        None => 0,
        Some(n) => {
            if n.color == Color::Red {
                for c in [&n.left, &n.right] {
                    if let Some(c) = c {
                        assert_eq!(c.color, Color::Black, "red node {} has a red child", n.val);
                    }
                }
            }
            let l = check_subtree(&n.left);
            let r = check_subtree(&n.right);
            assert_eq!(l, r, "black heights differ below {}", n.val);
            l + if n.color == Color::Black { 1 } else { 0 }
        }
    }
}

fn check_invariants(t: &RedBlackTree) {
    if let Some(r) = &t.root {
        assert_eq!(r.color, Color::Black, "root is red");
    }
    check_subtree(&t.root);
    let ks = keys_of(t);
    assert!(ks.windows(2).all(|w| w[0] <= w[1]), "keys out of order: {:?}", ks);
}

fn shape(t: &Option<Box<Node>>) -> String {
    match t {
        None => ".".to_string(),
        Some(n) => format!(
            "({} {:?} {} {})",
            n.val,
            n.color,
            shape(&n.left),
            shape(&n.right)
        ),
    }
}

fn height(t: &Option<Box<Node>>) -> usize {
    match t {
        None => 0,
        Some(n) => 1 + height(&n.left).max(height(&n.right)),
    }
}

/// A fixed pseudo-random sequence of keys in 0..range.
fn keys(count: usize, range: u64, seed: u64) -> Vec<i32> {
    let mut x = seed;
    (0..count)
        .map(|_| {
            x = x.wrapping_mul(6364136223846793005).wrapping_add(1442695040888963407);
            ((x >> 33) % range) as i32
        })
        .collect()
}

#[test]
fn ascending_inserts_rotate_left_at_root() {
    let t = build(&[10, 20, 30]);
    let r = t.root.as_ref().unwrap();
    assert_eq!((r.val, r.color), (20, Color::Black));
    let l = r.left.as_ref().unwrap();
    let rr = r.right.as_ref().unwrap();
    assert_eq!((l.val, l.color), (10, Color::Red));
    assert_eq!((rr.val, rr.color), (30, Color::Red));
    assert_eq!(
        t.traverse(),
        vec![(20, Color::Black), (10, Color::Red), (30, Color::Red)]
    );
}

#[test]
fn descending_inserts_rotate_right_at_root() {
    let t = build(&[10, 5, 1]);
    assert_eq!(
        t.traverse(),
        vec![(5, Color::Black), (1, Color::Red), (10, Color::Red)]
    );
}

#[test]
fn delete_node_with_two_children() {
    let mut t = build(&[10, 20, 30, 40, 50, 25]);
    check_invariants(&t);
    delete(&mut t, 30);
    check_invariants(&t);
    assert_eq!(keys_of(&t), vec![10, 20, 25, 40, 50]);
    assert!(!t.find(30));
}

#[test]
fn delete_only_node_empties_tree() {
    let mut t = build(&[7]);
    delete(&mut t, 7);
    assert!(t.root.is_none());
    assert!(t.traverse().is_empty());
}

#[test]
fn duplicate_keys_are_kept() {
    let mut t = build(&[10, 10]);
    let tens = t.traverse().iter().filter(|e| e.0 == 10).count();
    assert_eq!(tens, 2);
    check_invariants(&t);
    delete(&mut t, 10);
    assert_eq!(keys_of(&t), vec![10]);
    check_invariants(&t);
}

#[test]
fn invariants_hold_after_every_operation() {
    let mut t = RedBlackTree::new();
    let ins = keys(400, 100, 1);
    let del = keys(400, 100, 2);
    let mut model: Vec<i32> = Vec::new();
    for i in 0..400 {
        insert(&mut t, ins[i]);
        model.push(ins[i]);
        check_invariants(&t);
        if i % 3 == 2 {
            delete(&mut t, del[i]);
            if let Some(p) = model.iter().position(|&k| k == del[i]) {
                model.remove(p);
            }
            check_invariants(&t);
        }
        let mut sorted = model.clone();
        sorted.sort();
        assert_eq!(keys_of(&t), sorted);
    }
}

#[test]
fn in_order_keys_are_sorted() {
    let t = build(&[5, -3, 12, 0, 5, 99, -40, 7]);
    assert_eq!(keys_of(&t), vec![-40, -3, 0, 5, 5, 7, 12, 99]);
}

#[test]
fn rotations_keep_in_order_keys_and_colours() {
    let t = build(&[1, 2, 3, 4, 5, 6, 7, 8]);
    let before = keys_of(&t);
    let root = t.root.unwrap();
    let root_color = root.color;
    let right_color = root.right.as_ref().unwrap().color;
    let rotated = RedBlackTree::rotate_left(root);
    let mut v = Vec::new();
    in_order(&Some(rotated), &mut v);
    assert_eq!(v, before);

    let t = build(&[1, 2, 3, 4, 5, 6, 7, 8]);
    let root = t.root.unwrap();
    let root_val = root.val;
    let right_val = root.right.as_ref().unwrap().val;
    let rotated = RedBlackTree::rotate_left(root);
    assert_eq!(rotated.val, right_val);
    assert_eq!(rotated.color, right_color);
    let down = rotated.left.as_ref().unwrap();
    assert_eq!((down.val, down.color), (root_val, root_color));
    let back = RedBlackTree::rotate_right(rotated);
    assert_eq!(back.val, root_val);
    let mut w = Vec::new();
    in_order(&Some(back), &mut w);
    assert_eq!(w, before);
}

#[test]
fn insert_then_delete_all_empties_tree() {
    let ks = keys(300, 50, 3);
    let mut t = build(&ks);
    let mut order = ks.clone();
    order.reverse();
    for k in order {
        delete(&mut t, k);
        check_invariants(&t);
    }
    assert!(t.root.is_none());
}

#[test]
fn deleting_absent_key_changes_nothing() {
    let mut t = build(&[8, 3, 11, 1, 6, 14]);
    let before = shape(&t.root);
    delete(&mut t, 4);
    assert_eq!(shape(&t.root), before);
    let mut e = RedBlackTree::new();
    delete(&mut e, 4);
    assert!(e.root.is_none());
}

#[test]
fn height_stays_logarithmic() {
    let ks: Vec<i32> = (0..1000).collect();
    let t = build(&ks);
    let n = 1000.0f64;
    assert!((height(&t.root) as f64) <= 2.0 * (n + 1.0).log2());
}

#[test]
fn find_reports_membership() {
    let t = build(&[4, 2, 6, 1, 3, 5, 7]);
    for k in 1..=7 {
        assert!(t.find(k));
    }
    assert!(!t.find(0));
    assert!(!t.find(8));
    assert!(!RedBlackTree::new().find(1));
}

#[test]
fn new_node_is_red_leaf() {
    let n = Node::new(42);
    assert_eq!(n.val, 42);
    assert_eq!(n.color, Color::Red);
    assert!(n.left.is_none() && n.right.is_none());
}

#[test]
fn extreme_keys() {
    let mut t = build(&[i32::MAX, i32::MIN, 0, i32::MAX]);
    assert_eq!(keys_of(&t), vec![i32::MIN, 0, i32::MAX, i32::MAX]);
    delete(&mut t, i32::MAX);
    delete(&mut t, i32::MIN);
    assert_eq!(keys_of(&t), vec![0, i32::MAX]);
    check_invariants(&t);
}
