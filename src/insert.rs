use vstd::prelude::*;
use crate::node::{
    Color, Node, RedBlackTree, inorder, is_red, is_red_link, red_black, black_height, sorted,
    lemma_sorted_parts, lemma_sorted_join,
};

verus! {

/// `after` is `before` with `key` put in at some position.
pub open spec fn inserted(before: Seq<i32>, after: Seq<i32>, key: i32) -> bool {
    exists|i: int| 0 <= i <= before.len() && after == before.insert(i, key)
}

/// Red-black below the root: both subtrees are red-black with equal black
/// height, and a red root has at most one red child. This is the shape of a
/// subtree whose red root may have just gained a red child.
pub open spec fn red_black_below(t: Option<Box<Node>>) -> bool {
    match t {
        None => true,
        Some(n) => {
            &&& red_black(n.left)
            &&& red_black(n.right)
            &&& black_height(n.left) == black_height(n.right)
            &&& (n.color == Color::Red ==> !(is_red(n.left) && is_red(n.right)))
        },
    }
}

/// A red node with a red child.
pub open spec fn red_violation(t: Option<Box<Node>>) -> bool {
    match t {
        None => false,
        Some(n) => n.color == Color::Red && (is_red(n.left) || is_red(n.right)),
    }
}

proof fn lemma_red_black_is_below(t: Option<Box<Node>>)
    ensures
        red_black(t) ==> red_black_below(t) && !red_violation(t),
{
}

proof fn lemma_below_without_violation(t: Option<Box<Node>>)
    requires
        red_black_below(t),
        !red_violation(t),
    ensures
        red_black(t),
{
}

fn has_red_violation(t: &Option<Box<Node>>) -> (r: bool)
    ensures
        r == red_violation(*t),
{
    match t {
        Some(n) => n.color == Color::Red && (is_red_link(&n.left) || is_red_link(&n.right)),
        None => false,
    }
}

/// Repairs a red node with a red child directly below the black node `g`.
///
/// With the uncle (the sibling of the red parent) red, parent, uncle and `g`
/// are recoloured and `g` turns red; the caller one level up then sees `g` as
/// the node whose parent may be red. Otherwise a triangle is first turned
/// into a line by a rotation at the parent, and a rotation at `g` with two
/// recolourings settles the violation.
#[verifier::rlimit(30)]
fn insert_fixup(g: Box<Node>) -> (r: Box<Node>)
    requires
        g.color == Color::Black,
        red_black_below(g.left),
        red_black_below(g.right),
        black_height(g.left) == black_height(g.right),
    ensures
        red_black(Some(r)),
        black_height(Some(r)) == black_height(Some(g)),
        inorder(Some(r)) == inorder(Some(g)),
{
    proof {
        reveal_with_fuel(red_black, 3);
        reveal_with_fuel(black_height, 3);
        reveal_with_fuel(inorder, 3);
    }
    let mut g = g;
    if has_red_violation(&g.left) {
        if is_red_link(&g.right) {
            let mut p = g.left.take().unwrap();
            let mut u = g.right.take().unwrap();
            p.color = Color::Black;
            u.color = Color::Black;
            g.left = Some(p);
            g.right = Some(u);
            g.color = Color::Red;
            g
        } else {
            let mut p = g.left.take().unwrap();
            if is_red_link(&p.right) {
                p = RedBlackTree::rotate_left(p);
            }
            p.color = Color::Black;
            g.left = Some(p);
            g.color = Color::Red;
            RedBlackTree::rotate_right(g)
        }
    } else if has_red_violation(&g.right) {
        if is_red_link(&g.left) {
            let mut p = g.right.take().unwrap();
            let mut u = g.left.take().unwrap();
            p.color = Color::Black;
            u.color = Color::Black;
            g.right = Some(p);
            g.left = Some(u);
            g.color = Color::Red;
            g
        } else {
            let mut p = g.right.take().unwrap();
            if is_red_link(&p.left) {
                p = RedBlackTree::rotate_right(p);
            }
            p.color = Color::Black;
            g.right = Some(p);
            g.color = Color::Red;
            RedBlackTree::rotate_left(g)
        }
    } else {
        proof {
            lemma_below_without_violation(g.left);
            lemma_below_without_violation(g.right);
        }
        g
    }
}

proof fn lemma_insert_left(ls: Seq<i32>, v: i32, rs: Seq<i32>, li: Seq<i32>, val: i32)
    requires
        sorted(ls + seq![v] + rs),
        sorted(li),
        inserted(ls, li, val),
        val < v,
    ensures
        sorted(li + seq![v] + rs),
        inserted(ls + seq![v] + rs, li + seq![v] + rs, val),
{
    lemma_sorted_parts(ls, v, rs);
    let i = choose|i: int| 0 <= i <= ls.len() && li == ls.insert(i, val);
    ls.insert_ensures(i, val);
    assert forall|j: int| 0 <= j < li.len() implies li[j] <= v by {
        if j > i {
            assert(li[j] == ls[j - 1]);
        }
    }
    lemma_sorted_join(li, v, rs);
    assert(li + seq![v] + rs =~= (ls + seq![v] + rs).insert(i, val));
}

proof fn lemma_insert_right(ls: Seq<i32>, v: i32, rs: Seq<i32>, ri: Seq<i32>, val: i32)
    requires
        sorted(ls + seq![v] + rs),
        sorted(ri),
        inserted(rs, ri, val),
        v <= val,
    ensures
        sorted(ls + seq![v] + ri),
        inserted(ls + seq![v] + rs, ls + seq![v] + ri, val),
{
    lemma_sorted_parts(ls, v, rs);
    let i = choose|i: int| 0 <= i <= rs.len() && ri == rs.insert(i, val);
    rs.insert_ensures(i, val);
    assert forall|j: int| 0 <= j < ri.len() implies v <= ri[j] by {
        if j > i {
            assert(ri[j] == rs[j - 1]);
        }
    }
    lemma_sorted_join(ls, v, ri);
    let k = ls.len() + 1 + i;
    assert(ls + seq![v] + ri =~= (ls + seq![v] + rs).insert(k, val));
}

/// Puts `val` below `t` (left of a greater key, right of a smaller or equal
/// one) as a fresh red node, then repairs on the way back up. A black `t`
/// comes back red-black; a red `t` comes back red, possibly with one red
/// child for the caller to repair.
fn insert_into(t: Option<Box<Node>>, val: i32) -> (r: Box<Node>)
    requires
        red_black(t),
        sorted(inorder(t)),
    ensures
        inserted(inorder(t), inorder(Some(r)), val),
        sorted(inorder(Some(r))),
        black_height(Some(r)) == black_height(t),
        !is_red(t) ==> red_black(Some(r)),
        is_red(t) ==> r.color == Color::Red && red_black_below(Some(r)),
    decreases t,
{
    match t {
        None => {
            let r = Box::new(Node::new(val));
            proof {
                assert(inorder(Some(r)) =~= inorder(t).insert(0, val));
            }
            r
        },
        Some(n) => {
            let ghost n0 = n;
            proof {
                lemma_sorted_parts(inorder(n.left), n.val, inorder(n.right));
            }
            let mut n = n;
            if val < n.val {
                let l = insert_into(n.left.take(), val);
                n.left = Some(l);
                proof {
                    lemma_insert_left(inorder(n0.left), n.val, inorder(n.right), inorder(Some(l)), val);
                }
            } else {
                let r = insert_into(n.right.take(), val);
                n.right = Some(r);
                proof {
                    lemma_insert_right(inorder(n.left), n.val, inorder(n0.right), inorder(Some(r)), val);
                }
            }
            if n.color == Color::Black {
                proof {
                    lemma_red_black_is_below(n.left);
                    lemma_red_black_is_below(n.right);
                }
                insert_fixup(n)
            } else {
                n
            }
        },
    }
}

/// Adds `val` to the tree. Equal keys are kept: the new one goes to the
/// right of those already present.
pub fn insert(tree: &mut RedBlackTree, val: i32)
    requires
        old(tree).wf(),
    ensures
        final(tree).wf(),
        inserted(old(tree)@, final(tree)@, val),
{
    let r = insert_into(tree.root.take(), val);
    let mut r = r;
    r.color = Color::Black;
    tree.root = Some(r);
}

} // verus!
