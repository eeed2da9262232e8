use vstd::prelude::*;

use crate::bvh::{children_ok, count_leaves, count_nodes, count_prims, wf_at, BVHNode};

verus! {

broadcast use vstd::multiset::group_multiset_properties;

/// Why building a hierarchy stopped.
#[derive(Clone, Copy, PartialEq, Eq, Debug)]
pub enum BvhError {
    /// The split of node `node` needed a child beyond the space that was set aside
    /// for nodes, or a node index beyond `u32`.
    OutOfNodes { node: u32 },
}

/// `result` is a box that `expand` can give when it grows `start` over `prims`, one
/// after another.
pub open spec fn grown_over<B, T, FB: Fn(&B, &T) -> B>(expand: FB, start: B, prims: Seq<T>, result: B) -> bool
    decreases prims.len(),
{
    if prims.len() == 0 {
        result == start
    } else {
        exists|mid: B|
            grown_over(expand, start, prims.drop_last(), mid) && #[trigger] expand.ensures(
                (&mid, &prims.last()),
                result,
            )
    }
}

/// The primitive range `(lo, hi)` that the subtree of node `i` covers: a leaf covers
/// its own primitives, an interior node the span of its two children.
pub open spec fn subtree_range<B>(nodes: Seq<BVHNode<B>>, i: int) -> (int, int)
    decreases nodes.len() - i,
{
    if !(0 <= i < nodes.len()) {
        (0, 0)
    } else if nodes[i].num_prims != 0 {
        (nodes[i].first as int, nodes[i].first + nodes[i].num_prims)
    } else if children_ok(nodes, i) {
        (
            subtree_range(nodes, nodes[i].first as int).0,
            subtree_range(nodes, nodes[i].first + 1).1,
        )
    } else {
        (0, 0)
    }
}

/// The subtree of node `i` is a proper split tree: its leaves are non-empty and the
/// left child's range ends where the right child's range starts, so the leaves
/// cover the subtree's range once each, in order.
pub open spec fn valid_subtree<B>(nodes: Seq<BVHNode<B>>, i: int) -> bool
    decreases nodes.len() - i,
{
    if !(0 <= i < nodes.len()) {
        false
    } else if nodes[i].num_prims != 0 {
        true
    } else if children_ok(nodes, i) {
        &&& valid_subtree(nodes, nodes[i].first as int)
        &&& valid_subtree(nodes, nodes[i].first + 1)
        &&& subtree_range(nodes, nodes[i].first as int).1 == subtree_range(nodes, nodes[i].first + 1).0
    } else {
        false
    }
}

/// Every node below node `i` (other than `i` itself) has an index in `a .. b`.
pub open spec fn subtree_within<B>(nodes: Seq<BVHNode<B>>, i: int, a: int, b: int) -> bool
    decreases nodes.len() - i,
{
    if !(0 <= i < nodes.len()) {
        false
    } else if nodes[i].num_prims != 0 {
        true
    } else if children_ok(nodes, i) {
        &&& a <= nodes[i].first
        &&& nodes[i].first + 1 < b
        &&& subtree_within(nodes, nodes[i].first as int, a, b)
        &&& subtree_within(nodes, nodes[i].first + 1, a, b)
    } else {
        false
    }
}

/// Changing nodes outside a subtree leaves the subtree as it was.
proof fn lemma_subtree_frame<B>(n1: Seq<BVHNode<B>>, n2: Seq<BVHNode<B>>, i: int, a: int, b: int)
    requires
        subtree_within(n1, i, a, b),
        n1.len() == n2.len(),
        n1[i] == n2[i],
        forall|j: int| a <= j < b && j < n1.len() ==> n1[j] == n2[j],
    ensures
        subtree_within(n2, i, a, b),
        subtree_range(n2, i) == subtree_range(n1, i),
        valid_subtree(n2, i) == valid_subtree(n1, i),
        count_nodes(n2, i) == count_nodes(n1, i),
    decreases n1.len() - i,
{
    if n1[i].num_prims == 0 {
        let f = n1[i].first as int;
        lemma_subtree_frame(n1, n2, f, a, b);
        lemma_subtree_frame(n1, n2, f + 1, a, b);
    }
}

/// A subtree inside a smaller index span is inside a larger one.
proof fn lemma_subtree_within_widen<B>(nodes: Seq<BVHNode<B>>, i: int, a: int, b: int, a2: int, b2: int)
    requires
        subtree_within(nodes, i, a, b),
        a2 <= a,
        b <= b2,
    ensures
        subtree_within(nodes, i, a2, b2),
    decreases nodes.len() - i,
{
    if nodes[i].num_prims == 0 {
        let f = nodes[i].first as int;
        lemma_subtree_within_widen(nodes, f, a, b, a2, b2);
        lemma_subtree_within_widen(nodes, f + 1, a, b, a2, b2);
    }
}

/// All nodes of a subtree lie inside the node vector.
proof fn lemma_subtree_within_len<B>(nodes: Seq<BVHNode<B>>, i: int, a: int, b: int)
    requires
        subtree_within(nodes, i, a, b),
    ensures
        subtree_within(nodes, i, a, nodes.len() as int),
    decreases nodes.len() - i,
{
    if nodes[i].num_prims == 0 {
        let f = nodes[i].first as int;
        lemma_subtree_within_len(nodes, f, a, b);
        lemma_subtree_within_len(nodes, f + 1, a, b);
    }
}

/// A proper split tree is well formed.
pub proof fn lemma_valid_is_wf<B>(nodes: Seq<BVHNode<B>>, i: int)
    requires
        valid_subtree(nodes, i),
    ensures
        wf_at(nodes, i),
    decreases nodes.len() - i,
{
    if nodes[i].num_prims == 0 {
        lemma_valid_is_wf(nodes, nodes[i].first as int);
        lemma_valid_is_wf(nodes, nodes[i].first + 1);
    }
}

/// Node `j` is node `i` or lies below it.
pub open spec fn in_subtree<B>(nodes: Seq<BVHNode<B>>, i: int, j: int) -> bool
    decreases nodes.len() - i,
{
    if !(0 <= i < nodes.len()) {
        false
    } else if j == i {
        true
    } else if nodes[i].num_prims == 0 && children_ok(nodes, i) {
        in_subtree(nodes, nodes[i].first as int, j) || in_subtree(nodes, nodes[i].first + 1, j)
    } else {
        false
    }
}

/// `result` is `start` grown by `expand` over the primitives `prims`, taken in some
/// order.
pub open spec fn grown_box<B, T, FB: Fn(&B, &T) -> B>(expand: FB, start: B, prims: Seq<T>, result: B) -> bool {
    exists|s: Seq<T>| s.to_multiset() == prims.to_multiset() && #[trigger] grown_over(expand, start, s, result)
}

/// The box of every node of the subtree of node `i` is the box that the node had in
/// `start_nodes`, grown by `expand` over the primitives of the node's own subtree.
pub open spec fn boxes_grown<B, T, FB: Fn(&B, &T) -> B>(
    expand: FB,
    start_nodes: Seq<BVHNode<B>>,
    nodes: Seq<BVHNode<B>>,
    prims: Seq<T>,
    i: int,
) -> bool {
    forall|j: int|
        #[trigger] in_subtree(nodes, i, j) ==> grown_box(
            expand,
            start_nodes[j].aabb,
            prims.subrange(subtree_range(nodes, j).0, subtree_range(nodes, j).1),
            nodes[j].aabb,
        )
}

/// `goes_left` sends the primitives `lo .. mid` of `prims` to the left of `split`
/// and the primitives `mid .. hi` to the right of it.
pub open spec fn sorted_at<T, S, FL: Fn(&T, &S) -> bool>(
    goes_left: FL,
    prims: Seq<T>,
    lo: int,
    mid: int,
    hi: int,
    split: S,
) -> bool {
    &&& forall|k: int| lo <= k < mid ==> goes_left.ensures((&#[trigger] prims[k], &split), true)
    &&& forall|k: int| mid <= k < hi ==> goes_left.ensures((&#[trigger] prims[k], &split), false)
}

/// `goes_left` sorts the primitives `lo .. hi` of `prims` into two non-empty sides:
/// `lo .. mid` to the left of `split` and `mid .. hi` to the right of it.
pub open spec fn split_in_two<T, S, FL: Fn(&T, &S) -> bool>(
    goes_left: FL,
    prims: Seq<T>,
    lo: int,
    mid: int,
    hi: int,
    split: S,
) -> bool {
    &&& 0 <= lo < mid < hi <= prims.len()
    &&& sorted_at(goes_left, prims, lo, mid, hi, split)
}

/// Node `j` was split where `best_split` chose: `best_split` was handed the node as
/// it stood (its range of primitives and its box) together with the primitives,
/// which then held the same primitives in that range, and chose `split`. Of a leaf,
/// `goes_left` sent all primitives to one side of `split`; of an interior node, it
/// sent those of the left child to the left and those of the right child to the
/// right.
pub open spec fn split_chosen<B, T, S, FS: Fn(&BVHNode<B>, &Vec<T>) -> S, FL: Fn(&T, &S) -> bool>(
    best_split: FS,
    goes_left: FL,
    nodes: Seq<BVHNode<B>>,
    prims: Seq<T>,
    j: int,
) -> bool {
    let lo = subtree_range(nodes, j).0;
    let hi = subtree_range(nodes, j).1;
    exists|n: BVHNode<B>, v: Vec<T>, split: S|
        {
            &&& #[trigger] best_split.ensures((&n, &v), split)
            &&& n.first == lo
            &&& n.num_prims == hi - lo
            &&& n.aabb == nodes[j].aabb
            &&& v@.len() == prims.len()
            &&& v@.subrange(lo, hi).to_multiset() == prims.subrange(lo, hi).to_multiset()
            &&& if nodes[j].num_prims != 0 {
                sorted_at(goes_left, prims, lo, lo, hi, split) || sorted_at(goes_left, prims, lo, hi, hi, split)
            } else {
                sorted_at(goes_left, prims, lo, subtree_range(nodes, nodes[j].first as int).1, hi, split)
            }
        }
}

/// `best_split`, handed the node `n` as it stood together with the primitives
/// (which then held the same primitives in the node's range), chose a split by
/// which `goes_left` sorts the node's primitives into two non-empty sides.
pub open spec fn split_two_sided<B, T, S, FS: Fn(&BVHNode<B>, &Vec<T>) -> S, FL: Fn(&T, &S) -> bool>(
    best_split: FS,
    goes_left: FL,
    n: BVHNode<B>,
    prims: Seq<T>,
) -> bool {
    let lo = n.first as int;
    let hi = n.first + n.num_prims;
    exists|v: Vec<T>, split: S|
        {
            &&& #[trigger] best_split.ensures((&n, &v), split)
            &&& v@.len() == prims.len()
            &&& v@.subrange(lo, hi).to_multiset() == prims.subrange(lo, hi).to_multiset()
            &&& exists|mid: int| #[trigger] split_in_two(goes_left, prims, lo, mid, hi, split)
        }
}

/// Every node of the subtree of node `i` was split where `best_split` chose.
pub open spec fn splits_chosen<B, T, S, FS: Fn(&BVHNode<B>, &Vec<T>) -> S, FL: Fn(&T, &S) -> bool>(
    best_split: FS,
    goes_left: FL,
    nodes: Seq<BVHNode<B>>,
    prims: Seq<T>,
    i: int,
) -> bool {
    forall|j: int| #[trigger] in_subtree(nodes, i, j) ==> split_chosen(best_split, goes_left, nodes, prims, j)
}

/// Sending primitives to one side is kept when the primitives of the range are
/// reordered.
proof fn lemma_sorted_side<T, S, FL: Fn(&T, &S) -> bool>(
    goes_left: FL,
    p1: Seq<T>,
    p2: Seq<T>,
    lo: int,
    hi: int,
    split: S,
    side: bool,
)
    requires
        0 <= lo <= hi <= p1.len(),
        hi <= p2.len(),
        p1.subrange(lo, hi).to_multiset() == p2.subrange(lo, hi).to_multiset(),
        forall|k: int| lo <= k < hi ==> goes_left.ensures((&#[trigger] p1[k], &split), side),
    ensures
        forall|k: int| lo <= k < hi ==> goes_left.ensures((&#[trigger] p2[k], &split), side),
{
    broadcast use vstd::seq_lib::to_multiset_contains;

    let s1 = p1.subrange(lo, hi);
    let s2 = p2.subrange(lo, hi);
    assert forall|k: int| lo <= k < hi implies goes_left.ensures((&#[trigger] p2[k], &split), side) by {
        let x = p2[k];
        assert(s2[k - lo] == x);
        assert(s2.contains(x));
        assert(s2.to_multiset().count(x) > 0);
        assert(s1.contains(x));
        let k2 = choose|k2: int| 0 <= k2 < s1.len() && s1[k2] == x;
        assert(p1[lo + k2] == x);
    }
}

/// Walking the subtree of node `i` in preorder (a node, then its left subtree, then
/// its right subtree) until node `f`: whether `f` was reached, and how many nodes
/// were walked, `f` included.
pub open spec fn preorder_until<B>(nodes: Seq<BVHNode<B>>, i: int, f: int) -> (bool, nat)
    decreases nodes.len() - i,
{
    if !(0 <= i < nodes.len()) {
        (false, 0)
    } else if i == f {
        (true, 1)
    } else if nodes[i].num_prims != 0 {
        (false, 1)
    } else if children_ok(nodes, i) {
        let left = preorder_until(nodes, nodes[i].first as int, f);
        if left.0 {
            (true, 1 + left.1)
        } else {
            let right = preorder_until(nodes, nodes[i].first + 1, f);
            (right.0, 1 + left.1 + right.1)
        }
    } else {
        (false, 0)
    }
}

/// A preorder walk of a subtree that does not hold `f` walks all of its nodes.
proof fn lemma_preorder_not_found<B>(nodes: Seq<BVHNode<B>>, i: int, f: int)
    requires
        !in_subtree(nodes, i, f),
    ensures
        preorder_until(nodes, i, f) == (false, count_nodes(nodes, i)),
    decreases nodes.len() - i,
{
    if 0 <= i < nodes.len() && nodes[i].num_prims == 0 && children_ok(nodes, i) {
        lemma_preorder_not_found(nodes, nodes[i].first as int, f);
        lemma_preorder_not_found(nodes, nodes[i].first + 1, f);
    }
}

/// A node below node `i` lies inside the index span of the subtree.
proof fn lemma_in_subtree_within<B>(nodes: Seq<BVHNode<B>>, i: int, a: int, b: int, j: int)
    requires
        subtree_within(nodes, i, a, b),
        in_subtree(nodes, i, j),
    ensures
        j == i || a <= j < b,
        subtree_within(nodes, j, a, b),
    decreases nodes.len() - i,
{
    if j != i {
        let f = nodes[i].first as int;
        if in_subtree(nodes, f, j) {
            lemma_in_subtree_within(nodes, f, a, b, j);
        } else {
            lemma_in_subtree_within(nodes, f + 1, a, b, j);
        }
    }
}

/// Changing nodes outside a subtree keeps which nodes lie below its root.
proof fn lemma_in_subtree_frame<B>(n1: Seq<BVHNode<B>>, n2: Seq<BVHNode<B>>, i: int, a: int, b: int, j: int)
    requires
        subtree_within(n1, i, a, b),
        n1.len() == n2.len(),
        n1[i] == n2[i],
        forall|k: int| a <= k < b && k < n1.len() ==> n1[k] == n2[k],
    ensures
        in_subtree(n2, i, j) == in_subtree(n1, i, j),
    decreases n1.len() - i,
{
    if j != i && n1[i].num_prims == 0 {
        let f = n1[i].first as int;
        lemma_in_subtree_frame(n1, n2, f, a, b, j);
        lemma_in_subtree_frame(n1, n2, f + 1, a, b, j);
    }
}

/// Every subtree of a proper split tree is one.
proof fn lemma_valid_below<B>(nodes: Seq<BVHNode<B>>, i: int, j: int)
    requires
        valid_subtree(nodes, i),
        in_subtree(nodes, i, j),
    ensures
        valid_subtree(nodes, j),
    decreases nodes.len() - i,
{
    if j != i {
        let f = nodes[i].first as int;
        if in_subtree(nodes, f, j) {
            lemma_valid_below(nodes, f, j);
        } else {
            lemma_valid_below(nodes, f + 1, j);
        }
    }
}

/// A proper split tree covers at least one primitive.
proof fn lemma_range_nonempty<B>(nodes: Seq<BVHNode<B>>, i: int)
    requires
        valid_subtree(nodes, i),
    ensures
        subtree_range(nodes, i).0 < subtree_range(nodes, i).1,
    decreases nodes.len() - i,
{
    if nodes[i].num_prims == 0 {
        lemma_range_nonempty(nodes, nodes[i].first as int);
        lemma_range_nonempty(nodes, nodes[i].first + 1);
    }
}

/// In a proper split tree the range of a node lies inside the range of every node
/// above it.
proof fn lemma_range_nested<B>(nodes: Seq<BVHNode<B>>, i: int, j: int)
    requires
        valid_subtree(nodes, i),
        in_subtree(nodes, i, j),
    ensures
        subtree_range(nodes, i).0 <= subtree_range(nodes, j).0,
        subtree_range(nodes, j).0 < subtree_range(nodes, j).1,
        subtree_range(nodes, j).1 <= subtree_range(nodes, i).1,
    decreases nodes.len() - i,
{
    lemma_range_nonempty(nodes, i);
    if j != i {
        let f = nodes[i].first as int;
        lemma_range_nonempty(nodes, f);
        lemma_range_nonempty(nodes, f + 1);
        if in_subtree(nodes, f, j) {
            lemma_range_nested(nodes, f, j);
        } else {
            lemma_range_nested(nodes, f + 1, j);
        }
    }
}

/// Two sequences with the same multiset that agree outside `a .. b` have the same
/// multiset inside it.
proof fn lemma_middle_multiset<T>(p1: Seq<T>, p2: Seq<T>, a: int, b: int)
    requires
        0 <= a <= b <= p1.len(),
        p1.len() == p2.len(),
        p1.to_multiset() == p2.to_multiset(),
        forall|k: int| 0 <= k < p1.len() && !(a <= k < b) ==> p1[k] == p2[k],
    ensures
        p1.subrange(a, b).to_multiset() == p2.subrange(a, b).to_multiset(),
{
    broadcast use {vstd::seq_lib::lemma_multiset_commutative, vstd::multiset::group_multiset_axioms};

    let pre = p1.subrange(0, a);
    let post = p1.subrange(b, p1.len() as int);
    assert(pre =~= p2.subrange(0, a));
    assert(post =~= p2.subrange(b, p2.len() as int));
    assert(p1 =~= pre + p1.subrange(a, b) + post);
    assert(p2 =~= pre + p2.subrange(a, b) + post);
    let m1 = p1.subrange(a, b).to_multiset();
    let m2 = p2.subrange(a, b).to_multiset();
    assert(p1.to_multiset() =~= pre.to_multiset().add(m1).add(post.to_multiset()));
    assert(p2.to_multiset() =~= pre.to_multiset().add(m2).add(post.to_multiset()));
    let pm = pre.to_multiset();
    let qm = post.to_multiset();
    assert forall|x: T| m1.count(x) == m2.count(x) by {
        assert(pm.add(m1).add(qm).count(x) == pm.count(x) + m1.count(x) + qm.count(x));
        assert(pm.add(m2).add(qm).count(x) == pm.count(x) + m2.count(x) + qm.count(x));
        assert(p1.to_multiset().count(x) == p2.to_multiset().count(x));
    }
    assert(m1 =~= m2);
}

/// Growing over primitives in some order does not depend on the order they are listed
/// in.
proof fn lemma_grown_box_perm<B, T, FB: Fn(&B, &T) -> B>(expand: FB, start: B, p1: Seq<T>, p2: Seq<T>, result: B)
    requires
        grown_box(expand, start, p1, result),
        p1.to_multiset() == p2.to_multiset(),
    ensures
        grown_box(expand, start, p2, result),
{
    let s = choose|s: Seq<T>| s.to_multiset() == p1.to_multiset() && #[trigger] grown_over(expand, start, s, result);
    assert(s.to_multiset() == p2.to_multiset() && grown_over(expand, start, s, result));
}

/// The boxes of a subtree stay grown as stated when nodes outside the subtree, the
/// start boxes outside it and primitives outside its range change.
proof fn lemma_boxes_transport<B, T, FB: Fn(&B, &T) -> B>(
    expand: FB,
    st1: Seq<BVHNode<B>>,
    n1: Seq<BVHNode<B>>,
    p1: Seq<T>,
    st2: Seq<BVHNode<B>>,
    n2: Seq<BVHNode<B>>,
    p2: Seq<T>,
    c: int,
    a: int,
    b: int,
)
    requires
        boxes_grown(expand, st1, n1, p1, c),
        valid_subtree(n1, c),
        subtree_within(n1, c, a, b),
        n1.len() == n2.len(),
        n1[c] == n2[c],
        forall|k: int| a <= k < b && k < n1.len() ==> n1[k] == n2[k],
        st1[c].aabb == st2[c].aabb,
        forall|k: int| a <= k < b && k < n1.len() ==> st1[k].aabb == st2[k].aabb,
        0 <= subtree_range(n1, c).0,
        subtree_range(n1, c).1 <= p1.len(),
        p1.len() == p2.len(),
        forall|k: int| subtree_range(n1, c).0 <= k < subtree_range(n1, c).1 ==> p1[k] == p2[k],
    ensures
        boxes_grown(expand, st2, n2, p2, c),
{
    assert forall|j: int| #[trigger] in_subtree(n2, c, j) implies grown_box(
        expand,
        st2[j].aabb,
        p2.subrange(subtree_range(n2, j).0, subtree_range(n2, j).1),
        n2[j].aabb,
    ) by {
        lemma_in_subtree_frame(n1, n2, c, a, b, j);
        lemma_in_subtree_within(n1, c, a, b, j);
        lemma_subtree_within_len(n1, c, a, b);
        lemma_in_subtree_within(n1, c, a, n1.len() as int, j);
        lemma_subtree_frame(n1, n2, j, a, b);
        lemma_range_nested(n1, c, j);
        let rj = subtree_range(n1, j);
        assert(p1.subrange(rj.0, rj.1) =~= p2.subrange(rj.0, rj.1));
    }
}

/// The recorded splits of a subtree stay as stated when nodes outside the subtree
/// and primitives outside its range change.
proof fn lemma_splits_transport<B, T, S, FS: Fn(&BVHNode<B>, &Vec<T>) -> S, FL: Fn(&T, &S) -> bool>(
    best_split: FS,
    goes_left: FL,
    n1: Seq<BVHNode<B>>,
    p1: Seq<T>,
    n2: Seq<BVHNode<B>>,
    p2: Seq<T>,
    c: int,
    a: int,
    b: int,
)
    requires
        splits_chosen(best_split, goes_left, n1, p1, c),
        valid_subtree(n1, c),
        subtree_within(n1, c, a, b),
        n1.len() == n2.len(),
        n1[c] == n2[c],
        forall|k: int| a <= k < b && k < n1.len() ==> n1[k] == n2[k],
        0 <= subtree_range(n1, c).0,
        subtree_range(n1, c).1 <= p1.len(),
        p1.len() == p2.len(),
        forall|k: int| subtree_range(n1, c).0 <= k < subtree_range(n1, c).1 ==> p1[k] == p2[k],
    ensures
        splits_chosen(best_split, goes_left, n2, p2, c),
{
    assert forall|j: int| #[trigger] in_subtree(n2, c, j) implies split_chosen(best_split, goes_left, n2, p2, j) by {
        lemma_in_subtree_frame(n1, n2, c, a, b, j);
        lemma_in_subtree_within(n1, c, a, b, j);
        lemma_subtree_frame(n1, n2, j, a, b);
        lemma_range_nested(n1, c, j);
        let (lo, hi) = subtree_range(n1, j);
        assert(p1.subrange(lo, hi) =~= p2.subrange(lo, hi));
        assert(split_chosen(best_split, goes_left, n1, p1, j));
        let (n, v, split) = choose|n: BVHNode<B>, v: Vec<T>, split: S|
            {
                &&& #[trigger] best_split.ensures((&n, &v), split)
                &&& n.first == lo
                &&& n.num_prims == hi - lo
                &&& n.aabb == n1[j].aabb
                &&& v@.len() == p1.len()
                &&& v@.subrange(lo, hi).to_multiset() == p1.subrange(lo, hi).to_multiset()
                &&& if n1[j].num_prims != 0 {
                    sorted_at(goes_left, p1, lo, lo, hi, split) || sorted_at(goes_left, p1, lo, hi, hi, split)
                } else {
                    sorted_at(goes_left, p1, lo, subtree_range(n1, n1[j].first as int).1, hi, split)
                }
            };
        if n1[j].num_prims == 0 {
            let f = n1[j].first as int;
            lemma_subtree_frame(n1, n2, f, a, b);
            let mid = subtree_range(n1, f).1;
            lemma_valid_below(n1, c, j);
            lemma_range_nonempty(n1, f);
            lemma_range_nonempty(n1, f + 1);
            assert(lo <= mid <= hi);
            assert(sorted_at(goes_left, p2, lo, mid, hi, split));
        } else {
            if sorted_at(goes_left, p1, lo, lo, hi, split) {
                assert(sorted_at(goes_left, p2, lo, lo, hi, split));
            } else {
                assert(sorted_at(goes_left, p2, lo, hi, hi, split));
            }
        }
        assert(best_split.ensures((&n, &v), split));
    }
}

/// Swapping two entries keeps the multiset of a sequence.
proof fn lemma_swap_multiset<T>(s: Seq<T>, i: int, j: int)
    requires
        0 <= i < s.len(),
        0 <= j < s.len(),
    ensures
        s.update(i, s[j]).update(j, s[i]).to_multiset() == s.to_multiset(),
{
    broadcast use {
        vstd::seq_lib::to_multiset_update,
        vstd::seq_lib::to_multiset_contains,
        vstd::multiset::group_multiset_axioms,
    };

    let s1 = s.update(i, s[j]);
    assert(s1.to_multiset() == s.to_multiset().insert(s[j]).remove(s[i]));
    let s2 = s1.update(j, s[i]);
    assert(s2.to_multiset() == s1.to_multiset().insert(s[i]).remove(s1[j]));
    if i == j {
        assert(s2 =~= s);
    } else {
        assert(s1[j] == s[j]);
        let m = s.to_multiset();
        assert(s.contains(s[i]));
        assert(m.count(s[i]) > 0);
        assert(s2.to_multiset() =~= m);
    }
}

/// Swaps the entries at `i` and `j` with `slice::swap`. Trusted: the contract
/// claims that entry `i` afterwards holds the old entry `j` and the other way
/// round, all other entries unchanged; both indices must be in bounds, where the
/// call does not panic.
#[verifier::external_body]
fn swap_entries<T>(v: &mut Vec<T>, i: usize, j: usize)
    requires
        i < old(v)@.len(),
        j < old(v)@.len(),
    ensures
        final(v)@ == old(v)@.update(i as int, old(v)@[j as int]).update(j as int, old(v)@[i as int]),
{
    v.swap(i, j);
}

/// Sorts the primitives `first .. first + num_prims` in place so that those that go
/// to the left of `split` come first, and returns where the right ones start.
/// Every primitive is asked `goes_left` once while the unsorted middle shrinks from
/// both ends.
fn partition_prims<T, S, FL>(
    primitives: &mut Vec<T>,
    first: u32,
    num_prims: u32,
    split: &S,
    goes_left: &FL,
) -> (i: u32) where FL: Fn(&T, &S) -> bool
    requires
        first + num_prims <= old(primitives)@.len(),
        first + num_prims <= u32::MAX,
        forall|t: &T, s: &S| #[trigger] goes_left.requires((t, s)),
    ensures
        first <= i <= first + num_prims,
        final(primitives)@.len() == old(primitives)@.len(),
        final(primitives)@.to_multiset() == old(primitives)@.to_multiset(),
        forall|k: int|
            0 <= k < old(primitives)@.len() && !(first <= k < first + num_prims) ==> #[trigger] final(primitives)@[k]
                == old(primitives)@[k],
        forall|k: int| first <= k < i ==> goes_left.ensures((&#[trigger] final(primitives)@[k], split), true),
        forall|k: int|
            i <= k < first + num_prims ==> goes_left.ensures((&#[trigger] final(primitives)@[k], split), false),
{
    let mut i = first;
    // `end` is one past the last primitive whose side is still unknown.
    let mut end = first + num_prims;
    while i < end
        invariant
            first <= i <= end <= first + num_prims,
            first + num_prims <= primitives@.len(),
            primitives@.len() == old(primitives)@.len(),
            primitives@.to_multiset() == old(primitives)@.to_multiset(),
            forall|t: &T, s: &S| #[trigger] goes_left.requires((t, s)),
            forall|k: int|
                0 <= k < primitives@.len() && !(first <= k < first + num_prims) ==> #[trigger] primitives@[k]
                    == old(primitives)@[k],
            forall|k: int| first <= k < i ==> goes_left.ensures((&#[trigger] primitives@[k], split), true),
            forall|k: int| end <= k < first + num_prims ==> goes_left.ensures((&#[trigger] primitives@[k], split), false),
        decreases end - i,
    {
        if goes_left(&primitives[i as usize], split) {
            i += 1;
        } else {
            let ghost before = primitives@;
            swap_entries(primitives, i as usize, (end - 1) as usize);
            proof {
                lemma_swap_multiset(before, i as int, end - 1);
            }
            end -= 1;
        }
    }
    i
}

/// Splits the node `bvh_node_index`, whose primitives are
/// `first .. first + num_prims`, and then its children, until a split would leave a
/// side empty. The node's box is grown by `expand` over its primitives,
/// `best_split` picks where to split it, and `goes_left` sorts each primitive to a
/// side. Every call takes the next two free node indices for the children, also
/// where a split leaves a side empty and the node stays a leaf. Each node's box
/// starts from the box its slot held and grows over the primitives below it. A
/// split node is linked to its children before they are split. Fails with
/// `OutOfNodes` naming the node whose split into two non-empty sides needs a child
/// past the end of the vector, or at which node numbers run past `u32`.
#[verifier::spinoff_prover]
#[verifier::rlimit(100)]
pub fn subdivide<T, B: Copy, S, FB, FS, FL>(
    bvh_nodes: &mut Vec<BVHNode<B>>,
    primitives: &mut Vec<T>,
    bvh_node_index: u32,
    next_free_index: &mut u32,
    expand: &FB,
    best_split: &FS,
    goes_left: &FL,
) -> (r: Result<(), BvhError>) where
    FB: Fn(&B, &T) -> B,
    FS: Fn(&BVHNode<B>, &Vec<T>) -> S,
    FL: Fn(&T, &S) -> bool,

    requires
        forall|b: &B, t: &T| #[trigger] expand.requires((b, t)),
        forall|n: &BVHNode<B>, p: &Vec<T>| #[trigger] best_split.requires((n, p)),
        forall|t: &T, s: &S| #[trigger] goes_left.requires((t, s)),
        bvh_node_index < old(bvh_nodes)@.len(),
        old(bvh_nodes)@[bvh_node_index as int].num_prims >= 1,
        old(bvh_nodes)@[bvh_node_index as int].first + old(bvh_nodes)@[bvh_node_index as int].num_prims
            <= old(primitives)@.len(),
        old(bvh_nodes)@[bvh_node_index as int].first + old(bvh_nodes)@[bvh_node_index as int].num_prims
            <= u32::MAX,
    ensures
        final(bvh_nodes)@.len() == old(bvh_nodes)@.len(),
        *old(next_free_index) <= *final(next_free_index),
        forall|j: int|
            0 <= j < old(bvh_nodes)@.len() && j != bvh_node_index && !(*old(next_free_index) <= j
                < *final(next_free_index)) ==> #[trigger] final(bvh_nodes)@[j] == old(bvh_nodes)@[j],
        final(primitives)@.len() == old(primitives)@.len(),
        final(primitives)@.to_multiset() == old(primitives)@.to_multiset(),
        forall|k: int|
            0 <= k < old(primitives)@.len() && !(old(bvh_nodes)@[bvh_node_index as int].first <= k
                < old(bvh_nodes)@[bvh_node_index as int].first + old(
                bvh_nodes,
            )@[bvh_node_index as int].num_prims) ==> #[trigger] final(primitives)@[k] == old(primitives)@[k],
        // Two node indices are taken for every node of the subtree, leaves included,
        // so a subtree over `num_prims` primitives takes at most `4 * num_prims - 2`.
        r is Ok && bvh_node_index < *old(next_free_index) ==> *final(next_free_index) == *old(next_free_index)
            + 2 * count_nodes(
            final(bvh_nodes)@,
            bvh_node_index as int,
        ),
        *final(next_free_index) <= *old(next_free_index) + 4 * old(
            bvh_nodes,
        )@[bvh_node_index as int].num_prims - 2,
        // The node's box is its old box grown by `expand` over its primitives, in the
        // order they had before the call.
        bvh_node_index < *old(next_free_index) ==> grown_over(
            *expand,
            old(bvh_nodes)@[bvh_node_index as int].aabb,
            old(primitives)@.subrange(
                old(bvh_nodes)@[bvh_node_index as int].first as int,
                old(bvh_nodes)@[bvh_node_index as int].first + old(bvh_nodes)@[bvh_node_index as int].num_prims,
            ),
            final(bvh_nodes)@[bvh_node_index as int].aabb,
        ),
        // It fails only at the node that the error names, which is left a leaf:
        // where the next free index has run past what a `u32` can number, or where
        // the split that `best_split` chose for the node sorted its primitives into
        // two non-empty sides and the right child it needed, one before the next
        // free index, lies at or past the end of the node vector.
        r matches Err(BvhError::OutOfNodes { node }) ==> {
            &&& (node == bvh_node_index || *old(next_free_index) <= node < *final(next_free_index))
            &&& node < final(bvh_nodes)@.len()
            &&& final(bvh_nodes)@[node as int].num_prims != 0
            &&& (*final(next_free_index) > u32::MAX - 2 || (*final(next_free_index) - 1
                >= final(bvh_nodes)@.len() && split_two_sided(
                *best_split,
                *goes_left,
                final(bvh_nodes)@[node as int],
                final(primitives)@,
            )))
            // Where the node comes before the free indices, the nodes handled before
            // the failure are those a preorder walk from it meets up to the failing
            // node, which is linked into the tree; each took two indices, the failing
            // node too unless `u32` numbering ran out at it.
            &&& bvh_node_index < *old(next_free_index) ==> {
                let walked = preorder_until(final(bvh_nodes)@, bvh_node_index as int, node as int);
                &&& walked.0
                &&& (*final(next_free_index) == *old(next_free_index) + 2 * walked.1
                    || (*final(next_free_index) > u32::MAX - 2
                    && *final(next_free_index) == *old(next_free_index) + 2 * walked.1 - 2))
            }
        },
        // It succeeds whenever the storage has room for the largest subtree that its
        // primitives can make (its last two leaves never look past the storage).
        *old(next_free_index) + 4 * old(bvh_nodes)@[bvh_node_index as int].num_prims <= old(bvh_nodes)@.len()
            + 6 && *old(next_free_index) + 4 * old(bvh_nodes)@[bvh_node_index as int].num_prims <= u32::MAX
            + 2 ==> r is Ok,
        // Where the node comes before the free indices (a node at or past them
        // would be written over by its own children), the nodes below it form a
        // proper split tree:
        r is Ok && bvh_node_index < *old(next_free_index) ==> {
            &&& valid_subtree(final(bvh_nodes)@, bvh_node_index as int)
            &&& subtree_range(final(bvh_nodes)@, bvh_node_index as int) == (
                old(bvh_nodes)@[bvh_node_index as int].first as int,
                old(bvh_nodes)@[bvh_node_index as int].first + old(bvh_nodes)@[bvh_node_index as int].num_prims,
            )
            &&& subtree_within(
                final(bvh_nodes)@,
                bvh_node_index as int,
                *old(next_free_index) as int,
                *final(next_free_index) as int,
            )
            // Every node of the subtree was split where `best_split` chose: a leaf
            // is a node whose split left a side empty, and an interior node's
            // children hold the primitives that `goes_left` sent to either side.
            &&& splits_chosen(
                *best_split,
                *goes_left,
                final(bvh_nodes)@,
                final(primitives)@,
                bvh_node_index as int,
            )
            // Every node of the subtree has its former box grown over the primitives
            // below it.
            &&& boxes_grown(
                *expand,
                old(bvh_nodes)@,
                final(bvh_nodes)@,
                final(primitives)@,
                bvh_node_index as int,
            )
        },
    decreases old(bvh_nodes)@[bvh_node_index as int].num_prims,
{
    let idx = bvh_node_index as usize;
    let node = bvh_nodes[idx];
    let first = node.first;
    let num_prims = node.num_prims;
    // Grow the node's box over all of its primitives.
    let begin = first as usize;
    let end = begin + num_prims as usize;
    let mut aabb = node.aabb;
    let mut k = begin;
    assert(primitives@.subrange(begin as int, begin as int).len() == 0);
    while k < end
        invariant
            begin <= k <= end <= primitives@.len(),
            primitives@ == old(primitives)@,
            forall|b: &B, t: &T| #[trigger] expand.requires((b, t)),
            grown_over(*expand, node.aabb, primitives@.subrange(begin as int, k as int), aabb),
        decreases end - k,
    {
        let ghost prev = aabb;
        aabb = expand(&aabb, &primitives[k]);
        proof {
            let longer = primitives@.subrange(begin as int, k + 1);
            assert(longer.drop_last() =~= primitives@.subrange(begin as int, k as int));
            assert(longer.last() == primitives@[k as int]);
            assert(longer.len() > 0);
            assert(grown_over(*expand, node.aabb, longer.drop_last(), prev));
            assert(expand.ensures((&prev, &longer.last()), aabb));
            assert(grown_over(*expand, node.aabb, longer, aabb));
        }
        k += 1;
    }
    let node = BVHNode { first, num_prims, aabb };
    bvh_nodes.set(idx, node);
    let ghost nodes0 = bvh_nodes@;
    let ghost pvec: Vec<T> = *primitives;
    let split = best_split(&node, primitives);
    assert(best_split.ensures((&node, &pvec), split));
    // Sort to the left and right of the split.
    let i = partition_prims(primitives, first, num_prims, &split, goes_left);
    if *next_free_index > u32::MAX - 2 {
        return Err(BvhError::OutOfNodes { node: bvh_node_index });
    }
    let ghost old_free = *next_free_index as int;
    let left_idx = *next_free_index;
    *next_free_index += 1;
    let right_idx = *next_free_index;
    *next_free_index += 1;
    let left_num = i - first;
    let right_num = num_prims - left_num;
    proof {
        // The node's box was grown over its primitives in their old order; they are
        // the same primitives now.
        lemma_middle_multiset(old(primitives)@, primitives@, first as int, first + num_prims);
        assert(grown_over(*expand, old(bvh_nodes)@[idx as int].aabb, old(primitives)@.subrange(first as int, first + num_prims), aabb));
    }
    if left_num == 0 || right_num == 0 {
        // A split that leaves a side empty: the node stays a leaf.
        proof {
            let fin = bvh_nodes@;
            assert forall|j: int| #[trigger] in_subtree(fin, idx as int, j) implies grown_box(
                *expand,
                old(bvh_nodes)@[j].aabb,
                primitives@.subrange(subtree_range(fin, j).0, subtree_range(fin, j).1),
                fin[j].aabb,
            ) by {
                assert(j == idx);
            }
            assert(pvec@ == old(primitives)@);
            if left_num == 0 {
                assert(sorted_at(*goes_left, primitives@, first as int, first as int, first + num_prims, split));
            } else {
                assert(sorted_at(*goes_left, primitives@, first as int, first + num_prims, first + num_prims, split));
            }
            assert(split_chosen(*best_split, *goes_left, fin, primitives@, idx as int));
            assert forall|j: int| #[trigger] in_subtree(fin, idx as int, j) implies split_chosen(
                *best_split,
                *goes_left,
                fin,
                primitives@,
                j,
            ) by {
                assert(j == idx);
            }
        }
        return Ok(());
    }
    if right_idx as usize >= bvh_nodes.len() {
        proof {
            let fin = bvh_nodes@;
            assert(fin[idx as int].first == first && fin[idx as int].num_prims == num_prims);
            assert(split_in_two(
                *goes_left,
                primitives@,
                fin[idx as int].first as int,
                i as int,
                fin[idx as int].first + fin[idx as int].num_prims,
                split,
            ));
            assert(fin[idx as int] == node);
            assert(pvec@ == old(primitives)@);
            assert(best_split.ensures((&fin[idx as int], &pvec), split));
            assert(split_two_sided(*best_split, *goes_left, fin[idx as int], primitives@));
        }
        return Err(BvhError::OutOfNodes { node: bvh_node_index });
    }
    // Link the node to its children before they are split, so that the tree built
    // so far can be walked from it wherever a split further down fails.
    bvh_nodes.set(idx, BVHNode { first: left_idx, num_prims: 0, aabb: node.aabb });
    let ghost before_children = bvh_nodes@;
    let left_aabb = bvh_nodes[left_idx as usize].aabb;
    bvh_nodes.set(left_idx as usize, BVHNode { first, num_prims: left_num, aabb: left_aabb });
    let ghost after_left = bvh_nodes@;
    let right_aabb = bvh_nodes[right_idx as usize].aabb;
    bvh_nodes.set(right_idx as usize, BVHNode { first: i, num_prims: right_num, aabb: right_aabb });
    let ghost nodes1 = bvh_nodes@;
    let ghost prims1 = primitives@;
    match subdivide(bvh_nodes, primitives, left_idx, next_free_index, expand, best_split, goes_left) {
        Ok(()) => {},
        Err(e) => {
            return Err(e);
        },
    }
    let ghost nodes2 = bvh_nodes@;
    let ghost prims2 = primitives@;
    let ghost free1 = *next_free_index as int;
    match subdivide(bvh_nodes, primitives, right_idx, next_free_index, expand, best_split, goes_left) {
        Ok(()) => {},
        Err(e) => {
            proof {
                if (bvh_node_index as int) < old_free {
                    // The failing node lies below the right child, so the preorder walk
                    // passes through the whole left subtree first.
                    let fin = bvh_nodes@;
                    let failed = match e {
                        BvhError::OutOfNodes { node } => node as int,
                    };
                    let l = left_idx as int;
                    assert(fin[l] == nodes2[l]);
                    assert(fin[idx as int] == nodes2[idx as int]);
                    lemma_subtree_frame(nodes2, fin, l, old_free + 2, free1);
                    lemma_in_subtree_frame(nodes2, fin, l, old_free + 2, free1, failed);
                    if in_subtree(nodes2, l, failed) {
                        lemma_in_subtree_within(nodes2, l, old_free + 2, free1, failed);
                    }
                    lemma_preorder_not_found(fin, l, failed);
                    assert(children_ok(fin, idx as int));
                }
            }
            return Err(e);
        },
    }
    let ghost nodes3 = bvh_nodes@;
    let ghost free2 = *next_free_index as int;
    // The node was split: it holds no primitives, and `first` is its left child.
    let own_aabb = bvh_nodes[idx].aabb;
    bvh_nodes.set(idx, BVHNode { first: left_idx, num_prims: 0, aabb: own_aabb });
    proof {
        if (bvh_node_index as int) < old_free {
            assert(before_children[left_idx as int] == old(bvh_nodes)@[left_idx as int]);
            assert(after_left[right_idx as int] == old(bvh_nodes)@[right_idx as int]);
            let fin = bvh_nodes@;
            let l = left_idx as int;
            let r = right_idx as int;
            lemma_subtree_frame(nodes2, nodes3, l, old_free + 2, free1);
            lemma_subtree_frame(nodes3, fin, l, old_free + 2, free1);
            lemma_subtree_frame(nodes3, fin, r, free1, free2);
            lemma_subtree_within_widen(fin, l, old_free + 2, free1, old_free, free2);
            lemma_subtree_within_widen(fin, r, free1, free2, old_free, free2);
            assert(children_ok(fin, idx as int));
            assert(count_nodes(fin, idx as int) == count_nodes(fin, l) + count_nodes(fin, r) + 1);
            // The boxes below the children were grown by the recursive calls; nothing
            // that those boxes depend on changed afterwards.
            let st = old(bvh_nodes)@;
            let ps = primitives@;
            assert(nodes2[l] == fin[l]);
            assert(nodes2[r] == nodes1[r]);
            assert forall|k: int| free1 <= k < free2 && k < st.len() implies nodes2[k].aabb == st[k].aabb by {
                assert(nodes2[k] == nodes1[k]);
            }
            assert forall|k: int| old_free + 2 <= k < free1 && k < st.len() implies nodes2[k] == fin[k] by {
                assert(nodes3[k] == nodes2[k]);
            }
            assert forall|k: int| first <= k < i implies prims2[k] == ps[k] by {
            }
            lemma_boxes_transport(*expand, nodes1, nodes2, prims2, st, fin, ps, l, old_free + 2, free1);
            lemma_boxes_transport(*expand, nodes2, nodes3, ps, st, fin, ps, r, free1, free2);
            lemma_splits_transport(*best_split, *goes_left, nodes2, prims2, fin, ps, l, old_free + 2, free1);
            lemma_splits_transport(*best_split, *goes_left, nodes3, ps, fin, ps, r, free1, free2);
            // The node itself: its children hold the two sides of its chosen split.
            let hi = first + num_prims;
            lemma_middle_multiset(prims1, prims2, first as int, i as int);
            assert(prims2.subrange(first as int, i as int) =~= ps.subrange(first as int, i as int));
            lemma_sorted_side(*goes_left, prims1, ps, first as int, i as int, split, true);
            lemma_middle_multiset(prims2, ps, i as int, hi);
            assert(prims1.subrange(i as int, hi) =~= prims2.subrange(i as int, hi));
            lemma_sorted_side(*goes_left, prims1, ps, i as int, hi, split, false);
            assert(subtree_range(fin, l).1 == i);
            assert(sorted_at(*goes_left, ps, first as int, i as int, hi, split));
            lemma_middle_multiset(old(primitives)@, ps, first as int, hi);
            assert(pvec@ == old(primitives)@);
            assert(split_chosen(*best_split, *goes_left, fin, ps, idx as int));
            assert forall|j: int| #[trigger] in_subtree(fin, idx as int, j) implies split_chosen(
                *best_split,
                *goes_left,
                fin,
                ps,
                j,
            ) by {
                if j != idx {
                    assert(in_subtree(fin, l, j) || in_subtree(fin, r, j));
                }
            }
            assert forall|j: int| #[trigger] in_subtree(fin, idx as int, j) implies grown_box(
                *expand,
                st[j].aabb,
                ps.subrange(subtree_range(fin, j).0, subtree_range(fin, j).1),
                fin[j].aabb,
            ) by {
                if j != idx {
                    assert(in_subtree(fin, l, j) || in_subtree(fin, r, j));
                } else {
                    lemma_middle_multiset(old(primitives)@, ps, first as int, first + num_prims);
                    assert(subtree_range(fin, j) == (first as int, first + num_prims));
                    assert(fin[j].aabb == aabb);
                    let s0 = old(primitives)@.subrange(first as int, first + num_prims);
                    assert(grown_over(*expand, st[j].aabb, s0, fin[j].aabb));
                    assert(s0.to_multiset() == ps.subrange(first as int, first + num_prims).to_multiset());
                }
            }
        }
    }
    Ok(())
}

/// Where building a hierarchy stopped: the error, and the primitives, the nodes and
/// the next free node index as they stood then.
#[derive(Debug)]
pub struct BuildFailure<T, B> {
    pub error: BvhError,
    pub primitives: Vec<T>,
    pub nodes: Vec<BVHNode<B>>,
    pub next_free_index: u32,
}

/// Builds a bounding volume hierarchy over `primitives`. Room for `2 *
/// primitives.len()` nodes is set aside, each starting as a leaf-less node with the
/// box `empty_box`; the root holds all primitives, index 1 stays free, and the root
/// is split by `subdivide` with node 2 as the next free one. Returns the primitives,
/// reordered so that every leaf's primitives are contiguous, and the nodes; every
/// node's box is `empty_box` grown over the primitives below it, and every node was
/// split where `best_split` chose. Where a split into two non-empty sides needs
/// children past the `2 * primitives.len()` nodes set aside, which cannot happen
/// with one or two primitives, it stops and returns the error with the primitives,
/// the nodes and the next free node index as they stood.
pub fn build_bvh<T, B: Copy, S, FB, FS, FL>(
    primitives: Vec<T>,
    empty_box: B,
    expand: &FB,
    best_split: &FS,
    goes_left: &FL,
) -> (r: Result<(Vec<T>, Vec<BVHNode<B>>), BuildFailure<T, B>>) where
    FB: Fn(&B, &T) -> B,
    FS: Fn(&BVHNode<B>, &Vec<T>) -> S,
    FL: Fn(&T, &S) -> bool,

    requires
        forall|b: &B, t: &T| #[trigger] expand.requires((b, t)),
        forall|n: &BVHNode<B>, p: &Vec<T>| #[trigger] best_split.requires((n, p)),
        forall|t: &T, s: &S| #[trigger] goes_left.requires((t, s)),
        1 <= primitives@.len() <= u32::MAX,
        2 * primitives@.len() <= usize::MAX,
    ensures
        // Up to two primitives, every way of splitting them fits the nodes set aside;
        // with more, whether they suffice depends on where the splits fall.
        primitives@.len() <= 2 ==> r is Ok,
        // It fails only at a node of the tree it was building whose split, chosen by
        // `best_split`, sorted the node's primitives into two non-empty sides while
        // the right child it needed lies past the `2 * n` nodes set aside, where the
        // indices taken are exactly two for each node handled so far, leaves
        // included (short of `u32` node numbers running out, which takes a mesh of
        // over a billion primitives).
        r matches Err(f) ==> {
            &&& f.primitives@.to_multiset() == primitives@.to_multiset()
            &&& f.nodes@.len() == 2 * primitives@.len()
            &&& f.error matches BvhError::OutOfNodes { node }
            &&& (node == 0 || 2 <= node < f.next_free_index)
            &&& node < f.nodes@.len()
            &&& f.nodes@[node as int].num_prims != 0
            // The failing node is linked into the tree built so far, and the next
            // free index counts two indices for every node that a preorder walk from
            // the root meets up to it, itself included.
            &&& preorder_until(f.nodes@, 0, node as int).0
            &&& 4 * primitives@.len() <= u32::MAX - 2 ==> {
                &&& f.next_free_index == 2 + 2 * preorder_until(f.nodes@, 0, node as int).1
                &&& f.next_free_index - 1 >= f.nodes@.len()
                &&& split_two_sided(*best_split, *goes_left, f.nodes@[node as int], f.primitives@)
            }
        },
        r matches Ok((prims, nodes)) ==> {
            &&& prims@.to_multiset() == primitives@.to_multiset()
            &&& nodes@.len() == 2 * primitives@.len()
            &&& valid_subtree(nodes@, 0)
            &&& subtree_range(nodes@, 0) == (0int, primitives@.len() as int)
            &&& subtree_within(nodes@, 0, 2, nodes@.len() as int)
            &&& grown_over(*expand, empty_box, primitives@, nodes@[0].aabb)
            // Every node was split where `best_split` chose: leaves are nodes whose
            // split left a side empty; interior nodes' children hold the two sides.
            &&& splits_chosen(*best_split, *goes_left, nodes@, prims@, 0)
            // Every node's box is `empty_box` grown over the primitives of its subtree.
            &&& forall|j: int|
                #[trigger] in_subtree(nodes@, 0, j) ==> grown_box(
                    *expand,
                    empty_box,
                    prims@.subrange(subtree_range(nodes@, j).0, subtree_range(nodes@, j).1),
                    nodes@[j].aabb,
                )
        },
{
    let mut primitives = primitives;
    let num_prims = primitives.len();
    let mut bvh_nodes: Vec<BVHNode<B>> = Vec::new();
    let mut k: usize = 0;
    while k < 2 * num_prims
        invariant
            k <= 2 * num_prims,
            2 * num_prims <= usize::MAX,
            bvh_nodes@.len() == k,
            forall|j: int| 0 <= j < k ==> #[trigger] bvh_nodes@[j].aabb == empty_box,
        decreases 2 * num_prims - k,
    {
        bvh_nodes.push(BVHNode { first: 0, num_prims: 0, aabb: empty_box });
        k += 1;
    }
    // The root holds all primitives.
    bvh_nodes.set(0, BVHNode { first: 0, num_prims: num_prims as u32, aabb: empty_box });
    // Index 1 stays free, so that the two children of a node sit side by side.
    let mut next_free_index: u32 = 2;
    let ghost before = primitives@;
    let ghost start = bvh_nodes@;
    assert(forall|j: int| 0 <= j < start.len() ==> #[trigger] start[j].aabb == empty_box);
    match subdivide(&mut bvh_nodes, &mut primitives, 0, &mut next_free_index, expand, best_split, goes_left) {
        Ok(()) => {},
        Err(e) => {
            return Err(BuildFailure { error: e, primitives, nodes: bvh_nodes, next_free_index });
        },
    }
    proof {
        lemma_subtree_within_len(bvh_nodes@, 0, 2, next_free_index as int);
        assert(before.subrange(0, num_prims as int) =~= before);
        let fin = bvh_nodes@;
        assert forall|j: int| #[trigger] in_subtree(fin, 0, j) implies grown_box(
            *expand,
            empty_box,
            primitives@.subrange(subtree_range(fin, j).0, subtree_range(fin, j).1),
            fin[j].aabb,
        ) by {
            lemma_in_subtree_within(fin, 0, 2, fin.len() as int, j);
            assert(start[j].aabb == empty_box);
        }
    }
    Ok((primitives, bvh_nodes))
}

/// In a proper split tree the leaves hold exactly the primitives of the subtree's
/// range, and a tree with `l` leaves has `2 * l - 1` nodes.
pub proof fn law_split_tree_counts<B>(nodes: Seq<BVHNode<B>>, i: int)
    requires
        valid_subtree(nodes, i),
    ensures
        wf_at(nodes, i),
        count_prims(nodes, i) == subtree_range(nodes, i).1 - subtree_range(nodes, i).0,
        count_leaves(nodes, i) >= 1,
        count_nodes(nodes, i) == 2 * count_leaves(nodes, i) - 1,
    decreases nodes.len() - i,
{
    lemma_valid_is_wf(nodes, i);
    if nodes[i].num_prims == 0 {
        law_split_tree_counts(nodes, nodes[i].first as int);
        law_split_tree_counts(nodes, nodes[i].first + 1);
    }
}

} // verus!
