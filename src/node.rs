use vstd::prelude::*;

verus! {

/// The colour of a node.
#[derive(Clone, Copy, PartialEq, Eq, Debug, Structural)]
pub enum Color {
    Red,
    Black,
}

/// One stored key. Each child is owned by its parent; `None` is the
/// black virtual leaf.
pub struct Node {
    pub val: i32,
    pub color: Color,
    pub left: Option<Box<Node>>,
    pub right: Option<Box<Node>>,
}

/// The tree owns its root; every other node is reached through child links.
pub struct RedBlackTree {
    pub root: Option<Box<Node>>,
}

/// Keys of a subtree, left to right.
pub open spec fn inorder(t: Option<Box<Node>>) -> Seq<i32>
    decreases t,
{
    match t {
        None => seq![],
        Some(n) => inorder(n.left) + seq![n.val] + inorder(n.right),
    }
}

/// Keys and colours of a subtree: node, then left subtree, then right subtree.
pub open spec fn preorder(t: Option<Box<Node>>) -> Seq<(i32, Color)>
    decreases t,
{
    match t {
        None => seq![],
        Some(n) => seq![(n.val, n.color)] + preorder(n.left) + preorder(n.right),
    }
}

/// The colour of a subtree's root; an absent subtree is black.
pub open spec fn color_of(t: Option<Box<Node>>) -> Color {
    match t {
        None => Color::Black,
        Some(n) => n.color,
    }
}

pub open spec fn is_red(t: Option<Box<Node>>) -> bool {
    color_of(t) == Color::Red
}

/// Black nodes on the leftmost path below the root, the root included.
pub open spec fn black_height(t: Option<Box<Node>>) -> nat
    decreases t,
{
    match t {
        None => 0,
        Some(n) => black_height(n.left) + if n.color == Color::Black {
            1nat
        } else {
            0nat
        },
    }
}

/// No red node has a red child, and both children of every node have the
/// same black height.
pub open spec fn red_black(t: Option<Box<Node>>) -> bool
    decreases t,
{
    match t {
        None => true,
        Some(n) => {
            &&& red_black(n.left)
            &&& red_black(n.right)
            &&& black_height(n.left) == black_height(n.right)
            &&& (n.color == Color::Red ==> !is_red(n.left) && !is_red(n.right))
        },
    }
}

/// Number of nodes on the longest path from the root down.
pub open spec fn height(t: Option<Box<Node>>) -> nat
    decreases t,
{
    match t {
        None => 0,
        Some(n) => 1 + if height(n.left) >= height(n.right) {
            height(n.left)
        } else {
            height(n.right)
        },
    }
}

/// Non-decreasing order.
pub open spec fn sorted(s: Seq<i32>) -> bool {
    forall|i: int, j: int| 0 <= i < j < s.len() ==> s[i] <= s[j]
}

/// Splits an ordered in-order sequence at a node.
pub proof fn lemma_sorted_parts(l: Seq<i32>, v: i32, r: Seq<i32>)
    requires
        sorted(l + seq![v] + r),
    ensures
        sorted(l),
        sorted(r),
        forall|i: int| 0 <= i < l.len() ==> l[i] <= v,
        forall|i: int| 0 <= i < r.len() ==> v <= r[i],
{
    let s = l + seq![v] + r;
    assert forall|i: int| 0 <= i < l.len() implies l[i] <= v by {
        assert(s[i] == l[i] && s[l.len() as int] == v);
    }
    assert forall|i: int| 0 <= i < r.len() implies v <= r[i] by {
        assert(s[l.len() + 1 + i] == r[i] && s[l.len() as int] == v);
    }
    assert forall|i: int, j: int| 0 <= i < j < l.len() implies l[i] <= l[j] by {
        assert(s[i] == l[i] && s[j] == l[j]);
    }
    assert forall|i: int, j: int| 0 <= i < j < r.len() implies r[i] <= r[j] by {
        assert(s[l.len() + 1 + i] == r[i] && s[l.len() + 1 + j] == r[j]);
    }
}

/// Joins two ordered sequences around a key that separates them.
pub proof fn lemma_sorted_join(l: Seq<i32>, v: i32, r: Seq<i32>)
    requires
        sorted(l),
        sorted(r),
        forall|i: int| 0 <= i < l.len() ==> l[i] <= v,
        forall|i: int| 0 <= i < r.len() ==> v <= r[i],
    ensures
        sorted(l + seq![v] + r),
{
    let s = l + seq![v] + r;
    assert forall|i: int, j: int| 0 <= i < j < s.len() implies s[i] <= s[j] by {
        if j < l.len() {
        } else if j == l.len() {
        } else if i < l.len() {
            assert(l[i] <= v && v <= r[j - l.len() - 1]);
        } else if i == l.len() {
        } else {
            assert(s[i] == r[i - l.len() - 1]);
        }
    }
}

/// Removing an element keeps a sequence ordered.
pub proof fn lemma_sorted_remove(s: Seq<i32>, i: int)
    requires
        sorted(s),
        0 <= i < s.len(),
    ensures
        sorted(s.remove(i)),
{
    s.remove_ensures(i);
    let t = s.remove(i);
    assert forall|a: int, b: int| 0 <= a < b < t.len() implies t[a] <= t[b] by {
        let a0 = if a < i {
            a
        } else {
            a + 1
        };
        let b0 = if b < i {
            b
        } else {
            b + 1
        };
        assert(t[a] == s[a0] && t[b] == s[b0]);
    }
}

impl Node {
    /// A fresh node is red and has no children.
    pub fn new(val: i32) -> (n: Node)
        ensures
            n.val == val,
            n.color == Color::Red,
            n.left is None,
            n.right is None,
    {
        Node { val, color: Color::Red, left: None, right: None }
    }
}

/// Whether a subtree's root is red; an absent subtree is black.
pub fn is_red_link(t: &Option<Box<Node>>) -> (r: bool)
    ensures
        r == is_red(*t),
{
    match t {
        Some(n) => n.color == Color::Red,
        None => false,
    }
}

/// Appends the pre-order of `t` to `out`.
fn preorder_into(t: &Option<Box<Node>>, out: &mut Vec<(i32, Color)>)
    ensures
        final(out)@ == old(out)@ + preorder(*t),
    decreases *t,
{
    match t {
        None => {
            assert(old(out)@ + preorder(*t) =~= old(out)@);
        },
        Some(n) => {
            let ghost before = out@;
            out.push((n.val, n.color));
            preorder_into(&n.left, out);
            preorder_into(&n.right, out);
            assert(out@ =~= before + preorder(*t));
        },
    }
}

impl View for RedBlackTree {
    type V = Seq<i32>;

    open spec fn view(&self) -> Seq<i32> {
        inorder(self.root)
    }
}

impl RedBlackTree {
    /// All invariants: colours as a red-black tree with a black root, keys
    /// in order.
    pub open spec fn wf(&self) -> bool {
        &&& red_black(self.root)
        &&& !is_red(self.root)
        &&& sorted(self@)
    }

    pub fn new() -> (t: RedBlackTree)
        ensures
            t.root is None,
            t.wf(),
            t@ == Seq::<i32>::empty(),
    {
        RedBlackTree { root: None }
    }

    /// Whether some node holds `key`.
    pub fn find(&self, key: i32) -> (r: bool)
        requires
            self.wf(),
        ensures
            r == self@.contains(key),
    {
        crate::delete::find_node(&self.root, key)
    }

    /// Keys and colours in pre-order: node, then left subtree, then right
    /// subtree.
    pub fn traverse(&self) -> (r: Vec<(i32, Color)>)
        ensures
            r@ == preorder(self.root),
    {
        let mut out: Vec<(i32, Color)> = Vec::new();
        preorder_into(&self.root, &mut out);
        proof {
            assert(out@ =~= preorder(self.root));
        }
        out
    }

    /// Promotes `x`'s right child to `x`'s place; `x` becomes its left child
    /// and takes over its former left subtree. Colours are kept.
    pub fn rotate_left(x: Box<Node>) -> (r: Box<Node>)
        requires
            x.right is Some,
        ensures
            ({
                let y = x.right.unwrap();
                &&& r.val == y.val
                &&& r.color == y.color
                &&& r.right == y.right
                &&& r.left == Some(
                    Box::new(Node { val: x.val, color: x.color, left: x.left, right: y.left }),
                )
            }),
            inorder(Some(r)) == inorder(Some(x)),
    {
        let ghost x0 = x;
        let mut x = x;
        let mut y = x.right.take().unwrap();
        x.right = y.left.take();
        y.left = Some(x);
        proof {
            assert(inorder(x0.right) == inorder(y.left.unwrap().right) + seq![y.val] + inorder(
                y.right,
            ));
            let l = inorder(y.left.unwrap().left);
            let m = inorder(y.left.unwrap().right);
            let rr = inorder(y.right);
            assert(inorder(y.left) == l + seq![y.left.unwrap().val] + m);
            assert((l + seq![y.left.unwrap().val] + m) + seq![y.val] + rr =~= l + seq![
                y.left.unwrap().val,
            ] + (m + seq![y.val] + rr));
        }
        y
    }

    /// Promotes `x`'s left child to `x`'s place; `x` becomes its right child
    /// and takes over its former right subtree. Colours are kept.
    pub fn rotate_right(x: Box<Node>) -> (r: Box<Node>)
        requires
            x.left is Some,
        ensures
            ({
                let y = x.left.unwrap();
                &&& r.val == y.val
                &&& r.color == y.color
                &&& r.left == y.left
                &&& r.right == Some(
                    Box::new(Node { val: x.val, color: x.color, left: y.right, right: x.right }),
                )
            }),
            inorder(Some(r)) == inorder(Some(x)),
    {
        let ghost x0 = x;
        let mut x = x;
        let mut y = x.left.take().unwrap();
        x.left = y.right.take();
        y.right = Some(x);
        proof {
            assert(inorder(x0.left) == inorder(y.left) + seq![y.val] + inorder(
                y.right.unwrap().left,
            ));
            let l = inorder(y.left);
            let m = inorder(y.right.unwrap().left);
            let rr = inorder(y.right.unwrap().right);
            assert(inorder(y.right) == m + seq![y.right.unwrap().val] + rr);
            assert(l + seq![y.val] + (m + seq![y.right.unwrap().val] + rr) =~= (l + seq![y.val]
                + m) + seq![y.right.unwrap().val] + rr);
        }
        y
    }
}

} // verus!
