use vstd::prelude::*;
use crate::node::{
    Color, Node, RedBlackTree, inorder, is_red, is_red_link, red_black, black_height, sorted,
    lemma_sorted_parts, lemma_sorted_remove,
};

verus! {

/// `after` is `before` with one occurrence of `key` taken out.
pub open spec fn removed_one(before: Seq<i32>, after: Seq<i32>, key: i32) -> bool {
    exists|i: int| 0 <= i < before.len() && before[i] == key && after == before.remove(i)
}

/// What deleting `key` does to the in-order keys: one occurrence goes if
/// there is one, else nothing changes.
pub open spec fn deleted(before: Seq<i32>, after: Seq<i32>, key: i32) -> bool {
    if before.contains(key) {
        removed_one(before, after, key)
    } else {
        after == before
    }
}

/// The subtree on one side of `n` has lost a black node: it is red-black,
/// one black lower than its sibling, and the sibling of a red `n` is black.
pub open spec fn short_on_left(n: Node) -> bool {
    &&& red_black(n.left)
    &&& red_black(n.right)
    &&& black_height(n.left) + 1 == black_height(n.right)
    &&& (n.color == Color::Red ==> !is_red(n.right))
}

pub open spec fn short_on_right(n: Node) -> bool {
    &&& red_black(n.left)
    &&& red_black(n.right)
    &&& black_height(n.right) + 1 == black_height(n.left)
    &&& (n.color == Color::Red ==> !is_red(n.left))
}

/// Black height that `n` had before one of its sides lost a black node.
pub open spec fn intended_height(n: Node, sibling: Option<Box<Node>>) -> nat {
    black_height(sibling) + if n.color == Color::Black {
        1nat
    } else {
        0nat
    }
}

pub open spec fn bit(b: bool) -> nat {
    if b {
        1
    } else {
        0
    }
}

/// Splits a membership test at a node.
pub proof fn lemma_contains_split(l: Seq<i32>, v: i32, r: Seq<i32>, key: i32)
    ensures
        (l + seq![v] + r).contains(key) <==> (l.contains(key) || v == key || r.contains(key)),
{
    let s = l + seq![v] + r;
    if s.contains(key) {
        let i = choose|i: int| 0 <= i < s.len() && s[i] == key;
        if i < l.len() {
            assert(l[i] == key);
        } else if i > l.len() {
            assert(r[i - l.len() - 1] == key);
        }
    }
    if l.contains(key) {
        let i = choose|i: int| 0 <= i < l.len() && l[i] == key;
        assert(s[i] == key);
    }
    if r.contains(key) {
        let i = choose|i: int| 0 <= i < r.len() && r[i] == key;
        assert(s[l.len() + 1 + i] == key);
    }
    if v == key {
        assert(s[l.len() as int] == key);
    }
}

proof fn lemma_removed_left(ls: Seq<i32>, v: i32, rs: Seq<i32>, ls2: Seq<i32>, key: i32)
    requires
        removed_one(ls, ls2, key),
    ensures
        removed_one(ls + seq![v] + rs, ls2 + seq![v] + rs, key),
{
    let i = choose|i: int| 0 <= i < ls.len() && ls[i] == key && ls2 == ls.remove(i);
    assert((ls + seq![v] + rs)[i] == key);
    assert(ls2 + seq![v] + rs =~= (ls + seq![v] + rs).remove(i));
}

proof fn lemma_removed_right(ls: Seq<i32>, v: i32, rs: Seq<i32>, rs2: Seq<i32>, key: i32)
    requires
        removed_one(rs, rs2, key),
    ensures
        removed_one(ls + seq![v] + rs, ls + seq![v] + rs2, key),
{
    let i = choose|i: int| 0 <= i < rs.len() && rs[i] == key && rs2 == rs.remove(i);
    let k = ls.len() + 1 + i;
    assert((ls + seq![v] + rs)[k] == key);
    assert(ls + seq![v] + rs2 =~= (ls + seq![v] + rs).remove(k));
}

/// Whether `key` is stored below `t`: a descent that goes left of greater
/// keys and right of smaller ones, and stops at the first equal key.
pub fn find_node(t: &Option<Box<Node>>, key: i32) -> (r: bool)
    requires
        sorted(inorder(*t)),
    ensures
        r == inorder(*t).contains(key),
    decreases *t,
{
    match t {
        None => false,
        Some(n) => {
            proof {
                lemma_sorted_parts(inorder(n.left), n.val, inorder(n.right));
                lemma_contains_split(inorder(n.left), n.val, inorder(n.right), key);
            }
            if key == n.val {
                true
            } else if key < n.val {
                proof {
                    if inorder(n.right).contains(key) {
                        let i = choose|i: int|
                            0 <= i < inorder(n.right).len() && inorder(n.right)[i] == key;
                    }
                }
                find_node(&n.left, key)
            } else {
                proof {
                    if inorder(n.left).contains(key) {
                        let i = choose|i: int|
                            0 <= i < inorder(n.left).len() && inorder(n.left)[i] == key;
                    }
                }
                find_node(&n.right, key)
            }
        },
    }
}

/// Gives back the black that the left subtree of `n` lost.
///
/// A red left root is simply made black. Otherwise the sibling decides:
/// a red sibling is rotated up and the repair goes on one level lower;
/// a black sibling with two black children turns red and the shortfall
/// moves up to `n` (absorbed at once if `n` is red); a black sibling with a
/// red near child is rotated so that its far child is red; a black sibling
/// with a red far child takes `n`'s place and colour in a rotation, and the
/// repair ends.
///
/// The flag returned says that the whole subtree is now one black short.
#[verifier::rlimit(40)]
fn delete_fixup_left(n: Box<Node>) -> (r: (Box<Node>, bool))
    requires
        short_on_left(*n),
    ensures
        red_black(Some(r.0)),
        black_height(Some(r.0)) + bit(r.1) == intended_height(*n, n.right),
        r.1 ==> n.color == Color::Black,
        !r.1 && n.color == Color::Black ==> r.0.color == Color::Black,
        inorder(Some(r.0)) == inorder(Some(n)),
    decreases bit(is_red(n.right)),
{
    proof {
        reveal_with_fuel(red_black, 3);
        reveal_with_fuel(black_height, 3);
        reveal_with_fuel(inorder, 3);
    }
    let mut n = n;
    if is_red_link(&n.left) {
        let mut x = n.left.take().unwrap();
        x.color = Color::Black;
        n.left = Some(x);
        return (n, false);
    }
    if is_red_link(&n.right) {
        let mut w = n.right.take().unwrap();
        w.color = Color::Black;
        n.color = Color::Red;
        n.right = Some(w);
        let mut top = RedBlackTree::rotate_left(n);
        let inner = top.left.take().unwrap();
        let (inner, _) = delete_fixup_left(inner);
        top.left = Some(inner);
        return (top, false);
    }
    let mut w = n.right.take().unwrap();
    if !is_red_link(&w.left) && !is_red_link(&w.right) {
        w.color = Color::Red;
        n.right = Some(w);
        if n.color == Color::Red {
            n.color = Color::Black;
            (n, false)
        } else {
            (n, true)
        }
    } else {
        if !is_red_link(&w.right) {
            let mut near = w.left.take().unwrap();
            near.color = Color::Black;
            w.left = Some(near);
            w.color = Color::Red;
            w = RedBlackTree::rotate_right(w);
        }
        w.color = n.color;
        n.color = Color::Black;
        let mut far = w.right.take().unwrap();
        far.color = Color::Black;
        w.right = Some(far);
        n.right = Some(w);
        (RedBlackTree::rotate_left(n), false)
    }
}


/// Mirror of [`delete_fixup_left`]: gives back the black that the right
/// subtree of `n` lost.
#[verifier::rlimit(40)]
fn delete_fixup_right(n: Box<Node>) -> (r: (Box<Node>, bool))
    requires
        short_on_right(*n),
    ensures
        red_black(Some(r.0)),
        black_height(Some(r.0)) + bit(r.1) == intended_height(*n, n.left),
        r.1 ==> n.color == Color::Black,
        !r.1 && n.color == Color::Black ==> r.0.color == Color::Black,
        inorder(Some(r.0)) == inorder(Some(n)),
    decreases bit(is_red(n.left)),
{
    proof {
        reveal_with_fuel(red_black, 3);
        reveal_with_fuel(black_height, 3);
        reveal_with_fuel(inorder, 3);
    }
    let mut n = n;
    if is_red_link(&n.right) {
        let mut x = n.right.take().unwrap();
        x.color = Color::Black;
        n.right = Some(x);
        return (n, false);
    }
    if is_red_link(&n.left) {
        let mut w = n.left.take().unwrap();
        w.color = Color::Black;
        n.color = Color::Red;
        n.left = Some(w);
        let mut top = RedBlackTree::rotate_right(n);
        let inner = top.right.take().unwrap();
        let (inner, _) = delete_fixup_right(inner);
        top.right = Some(inner);
        return (top, false);
    }
    let mut w = n.left.take().unwrap();
    if !is_red_link(&w.right) && !is_red_link(&w.left) {
        w.color = Color::Red;
        n.left = Some(w);
        if n.color == Color::Red {
            n.color = Color::Black;
            (n, false)
        } else {
            (n, true)
        }
    } else {
        if !is_red_link(&w.left) {
            let mut near = w.right.take().unwrap();
            near.color = Color::Black;
            w.right = Some(near);
            w.color = Color::Red;
            w = RedBlackTree::rotate_left(w);
        }
        w.color = n.color;
        n.color = Color::Black;
        let mut far = w.left.take().unwrap();
        far.color = Color::Black;
        w.left = Some(far);
        n.left = Some(w);
        (RedBlackTree::rotate_right(n), false)
    }
}


/// Repairs the shortfall of one black below `n`, on its left side if
/// `x_is_left`, else on its right side. The flag returned says that the whole
/// subtree is now one black short, so that the repair goes on at its parent.
fn delete_fixup(n: Box<Node>, x_is_left: bool) -> (r: (Box<Node>, bool))
    requires
        x_is_left ==> short_on_left(*n),
        !x_is_left ==> short_on_right(*n),
    ensures
        red_black(Some(r.0)),
        black_height(Some(r.0)) + bit(r.1) == intended_height(
            *n,
            if x_is_left {
                n.right
            } else {
                n.left
            },
        ),
        r.1 ==> n.color == Color::Black,
        !r.1 && n.color == Color::Black ==> r.0.color == Color::Black,
        inorder(Some(r.0)) == inorder(Some(n)),
{
    if x_is_left {
        delete_fixup_left(n)
    } else {
        delete_fixup_right(n)
    }
}

/// Takes the leftmost node (the minimum) out of the subtree `n`: it is
/// replaced by its right child, and a lost black is repaired on the way
/// back up. Returns what is left of the subtree, the node taken out, and
/// whether the rest is one black short.
fn remove_minimum(n: Box<Node>) -> (r: (Option<Box<Node>>, Box<Node>, bool))
    requires
        red_black(Some(n)),
    ensures
        red_black(r.0),
        black_height(r.0) + bit(r.2) == black_height(Some(n)),
        !r.2 && n.color == Color::Black ==> !is_red(r.0),
        inorder(Some(n)) == seq![r.1.val] + inorder(r.0),
    decreases n,
{
    let ghost n0 = n;
    let mut n = n;
    match n.left.take() {
        None => {
            let rest = n.right.take();
            let short = n.color == Color::Black;
            proof {
                assert(n0.left is None);
                assert(inorder(n0.left) == Seq::<i32>::empty());
                assert(inorder(Some(n0)) =~= seq![n.val] + inorder(rest));
            }
            (rest, n, short)
        },
        Some(l) => {
            let (rest, m, short) = remove_minimum(l);
            n.left = rest;
            proof {
                assert(inorder(Some(n0)) =~= seq![m.val] + inorder(Some(n)));
            }
            if short {
                let (n, short) = delete_fixup(n, true);
                (Some(n), m, short)
            } else {
                (Some(n), m, false)
            }
        },
    }
}

/// Removes one node holding `key` from the subtree `n`, which holds it: the
/// first one met on the way down. A node with at most one child is replaced
/// by that child; a node with two children is replaced by its successor,
/// which takes its colour. A lost black is repaired on the way back up; the
/// flag returned says that the rest is one black short.
fn delete_from(n: Box<Node>, key: i32) -> (r: (Option<Box<Node>>, bool))
    requires
        red_black(Some(n)),
        sorted(inorder(Some(n))),
        inorder(Some(n)).contains(key),
    ensures
        red_black(r.0),
        black_height(r.0) + bit(r.1) == black_height(Some(n)),
        !r.1 && n.color == Color::Black ==> !is_red(r.0),
        removed_one(inorder(Some(n)), inorder(r.0), key),
    decreases n,
{
    let ghost n0 = n;
    proof {
        lemma_sorted_parts(inorder(n.left), n.val, inorder(n.right));
        lemma_contains_split(inorder(n.left), n.val, inorder(n.right), key);
    }
    let mut n = n;
    if key < n.val {
        proof {
            if inorder(n.right).contains(key) {
                let i = choose|i: int| 0 <= i < inorder(n.right).len() && inorder(n.right)[i] == key;
            }
        }
        let l = n.left.take().unwrap();
        let (rest, short) = delete_from(l, key);
        n.left = rest;
        proof {
            lemma_removed_left(inorder(n0.left), n.val, inorder(n.right), inorder(rest), key);
        }
        if short {
            let (n, short) = delete_fixup(n, true);
            (Some(n), short)
        } else {
            (Some(n), false)
        }
    } else if n.val < key {
        proof {
            if inorder(n.left).contains(key) {
                let i = choose|i: int| 0 <= i < inorder(n.left).len() && inorder(n.left)[i] == key;
            }
        }
        let r = n.right.take().unwrap();
        let (rest, short) = delete_from(r, key);
        n.right = rest;
        proof {
            lemma_removed_right(inorder(n.left), n.val, inorder(n0.right), inorder(rest), key);
        }
        if short {
            let (n, short) = delete_fixup(n, false);
            (Some(n), short)
        } else {
            (Some(n), false)
        }
    } else if n.left.is_none() {
        proof {
            assert(inorder(Some(n0))[0] == key);
            assert(inorder(n.right) =~= inorder(Some(n0)).remove(0));
        }
        (n.right.take(), n.color == Color::Black)
    } else if n.right.is_none() {
        proof {
            let k = inorder(n.left).len();
            assert(inorder(Some(n0))[k as int] == key);
            assert(inorder(n.left) =~= inorder(Some(n0)).remove(k as int));
        }
        (n.left.take(), n.color == Color::Black)
    } else {
        let r = n.right.take().unwrap();
        let (rest, y, short) = remove_minimum(r);
        let mut y = y;
        y.left = n.left.take();
        y.right = rest;
        y.color = n.color;
        proof {
            let k = inorder(n0.left).len() as int;
            assert(inorder(Some(n0))[k] == key);
            assert(inorder(Some(y)) =~= inorder(Some(n0)).remove(k));
        }
        if short {
            let (y, short) = delete_fixup(y, false);
            (Some(y), short)
        } else {
            (Some(y), false)
        }
    }
}

/// Removes one node holding `key`; with no such node the tree is left as it
/// is. Among equal keys the one removed is the first met on the way down from
/// the root.
pub fn delete(tree: &mut RedBlackTree, key: i32)
    requires
        old(tree).wf(),
    ensures
        final(tree).wf(),
        deleted(old(tree)@, final(tree)@, key),
        !old(tree)@.contains(key) ==> *final(tree) == *old(tree),
{
    if !find_node(&tree.root, key) {
        return;
    }
    let root = tree.root.take().unwrap();
    let (rest, _) = delete_from(root, key);
    match rest {
        Some(r) => {
            let mut r = r;
            r.color = Color::Black;
            tree.root = Some(r);
        },
        None => {},
    }
    proof {
        let i = choose|i: int|
            0 <= i < old(tree)@.len() && old(tree)@[i] == key && inorder(rest) == old(tree)@.remove(i);
        lemma_sorted_remove(old(tree)@, i);
    }
}

} // verus!
