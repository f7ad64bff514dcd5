use vstd::prelude::*;
use crate::node::{Node, RedBlackTree, inorder, is_red, red_black, black_height, height};
use crate::insert::inserted;
use crate::delete::{deleted, removed_one};

verus! {

broadcast use vstd::seq_lib::group_to_multiset_ensures;

pub open spec fn pow2(e: nat) -> nat
    decreases e,
{
    if e == 0 {
        1
    } else {
        2 * pow2((e - 1) as nat)
    }
}

proof fn lemma_pow2_monotone(a: nat, b: nat)
    requires
        a <= b,
    ensures
        pow2(a) <= pow2(b),
    decreases b,
{
    if a < b {
        lemma_pow2_monotone(a, (b - 1) as nat);
    }
}

proof fn lemma_pow2_double(a: nat)
    ensures
        pow2(2 * a) == pow2(a) * pow2(a),
    decreases a,
{
    if a > 0 {
        let b = (a - 1) as nat;
        lemma_pow2_double(b);
        assert(pow2((2 * a - 1) as nat) == 2 * pow2(2 * b));
        assert(pow2(2 * a) == 4 * pow2(2 * b));
        assert(pow2(a) == 2 * pow2(b));
        assert(pow2(a) * pow2(a) == 4 * (pow2(b) * pow2(b))) by (nonlinear_arith)
            requires
                pow2(a) == 2 * pow2(b),
        ;
        assert(pow2(2 * b) == pow2(b) * pow2(b));
    } else {
        assert(pow2(0) == 1);
        assert(pow2(0) * pow2(0) == 1) by (nonlinear_arith)
            requires
                pow2(0) == 1,
        ;
    }
}

/// A red-black subtree is at most twice its black height tall, plus one for
/// a red root.
proof fn lemma_height_vs_black_height(t: Option<Box<Node>>)
    requires
        red_black(t),
    ensures
        height(t) <= 2 * black_height(t) + if is_red(t) {
            1nat
        } else {
            0nat
        },
    decreases t,
{
    if let Some(n) = t {
        lemma_height_vs_black_height(n.left);
        lemma_height_vs_black_height(n.right);
    }
}

/// A red-black subtree of black height `h` holds at least `2^h - 1` nodes.
proof fn lemma_size_vs_black_height(t: Option<Box<Node>>)
    requires
        red_black(t),
    ensures
        pow2(black_height(t)) <= inorder(t).len() + 1,
    decreases t,
{
    if let Some(n) = t {
        lemma_size_vs_black_height(n.left);
        lemma_size_vs_black_height(n.right);
        lemma_pow2_monotone(black_height(n.left), black_height(t));
    }
}

/// A well-formed tree of `n` nodes is at most `2 log2(n + 1)` tall, which is
/// stated without logarithms: two to the height is at most `(n + 1)^2`.
pub proof fn lemma_height_bound(t: RedBlackTree)
    requires
        t.wf(),
    ensures
        pow2(height(t.root)) <= (t@.len() + 1) * (t@.len() + 1),
{
    let b = black_height(t.root);
    let n1 = t@.len() + 1;
    lemma_height_vs_black_height(t.root);
    lemma_size_vs_black_height(t.root);
    lemma_pow2_monotone(height(t.root), 2 * b);
    lemma_pow2_double(b);
    assert(pow2(b) * pow2(b) <= n1 * n1) by (nonlinear_arith)
        requires
            pow2(b) <= n1,
    ;
}

/// A tree whose in-order sequence is empty has no root.
pub proof fn lemma_empty_has_no_root(t: RedBlackTree)
    requires
        t@.len() == 0,
    ensures
        t.root is None,
{
    if let Some(n) = t.root {
        assert(t@.len() >= 1);
    }
}

proof fn lemma_after_inserts(keys: Seq<i32>, trees: Seq<RedBlackTree>, i: int)
    requires
        0 <= i <= keys.len(),
        trees.len() > keys.len(),
        trees[0]@.len() == 0,
        forall|j: int| 0 <= j < keys.len() ==> inserted(#[trigger] trees[j]@, trees[j + 1]@, keys[j]),
    ensures
        trees[i]@.to_multiset() == keys.subrange(0, i).to_multiset(),
    decreases i,
{
    if i == 0 {
        assert(trees[0]@ =~= Seq::<i32>::empty());
        assert(keys.subrange(0, 0) =~= Seq::<i32>::empty());
    } else {
        lemma_after_inserts(keys, trees, i - 1);
        assert(inserted(trees[i - 1]@, trees[i]@, keys[i - 1]));
        let p = choose|p: int|
            0 <= p <= trees[i - 1]@.len() && trees[i]@ == #[trigger] trees[i - 1]@.insert(p, keys[i - 1]);
        assert(keys.subrange(0, i) =~= keys.subrange(0, i - 1).push(keys[i - 1]));
    }
}

proof fn lemma_after_deletes(dels: Seq<i32>, trees: Seq<RedBlackTree>, base: int, i: int)
    requires
        0 <= i <= dels.len(),
        0 <= base,
        trees.len() > base + dels.len(),
        trees[base]@.to_multiset() == dels.to_multiset(),
        forall|j: int|
            0 <= j < dels.len() ==> deleted(#[trigger] trees[base + j]@, trees[base + j + 1]@, dels[j]),
    ensures
        trees[base + i]@.to_multiset() == dels.subrange(i, dels.len() as int).to_multiset(),
    decreases i,
{
    if i == 0 {
        assert(dels.subrange(0, dels.len() as int) =~= dels);
    } else {
        let k = i - 1;
        let before = trees[base + k]@;
        let after = trees[base + k + 1]@;
        let x = dels[k];
        lemma_after_deletes(dels, trees, base, k);
        let rest = dels.subrange(k, dels.len() as int);
        assert(rest[0] == x);
        assert(rest.remove(0) =~= dels.subrange(i, dels.len() as int));
        assert(rest.to_multiset().count(x) > 0);
        assert(before.contains(x));
        assert(deleted(before, after, x));
        assert(removed_one(before, after, x));
        let p = choose|p: int| 0 <= p < before.len() && before[p] == x && after == #[trigger] before.remove(p);
        assert(after.to_multiset() == before.to_multiset().remove(x));
    }
}

/// Inserting keys one by one into an empty tree and then deleting the same
/// keys one by one, in any order, leaves the tree without a root.
pub proof fn lemma_round_trip(keys: Seq<i32>, dels: Seq<i32>, trees: Seq<RedBlackTree>)
    requires
        dels.to_multiset() == keys.to_multiset(),
        trees.len() == 2 * keys.len() + 1,
        trees[0].root is None,
        forall|j: int| 0 <= j < keys.len() ==> inserted(#[trigger] trees[j]@, trees[j + 1]@, keys[j]),
        forall|j: int|
            0 <= j < keys.len() ==> deleted(
                #[trigger] trees[keys.len() + j]@,
                trees[keys.len() + j + 1]@,
                dels[j],
            ),
    ensures
        trees[2 * keys.len() as int].root is None,
{
    let n = keys.len() as int;
    assert(dels.len() == n) by {
        vstd::seq_lib::to_multiset_len(dels);
        vstd::seq_lib::to_multiset_len(keys);
    }
    assert(trees[0]@.len() == 0);
    lemma_after_inserts(keys, trees, n);
    assert(keys.subrange(0, n) =~= keys);
    assert forall|j: int| 0 <= j < dels.len() implies deleted(
        #[trigger] trees[n + j]@,
        trees[n + j + 1]@,
        dels[j],
    ) by {
        assert(deleted(trees[keys.len() + j]@, trees[keys.len() + j + 1]@, dels[j]));
    }
    lemma_after_deletes(dels, trees, n, n);
    assert(dels.subrange(n, n) =~= Seq::<i32>::empty());
    assert(trees[2 * n]@.to_multiset().len() == 0);
    lemma_empty_has_no_root(trees[2 * n]);
}

} // verus!
