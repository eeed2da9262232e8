use vstd::prelude::*;

verus! {

/// A node of a bounding volume hierarchy stored in a flat vector.
/// A node with `num_prims != 0` is a leaf holding the primitives
/// `first .. first + num_prims`; a node with `num_prims == 0` is interior and its
/// children are the nodes `first` and `first + 1`. `aabb` is the node's bounding box.
#[derive(Clone, Copy, Debug)]
pub struct BVHNode<B> {
    pub first: u32,
    pub num_prims: u32,
    pub aabb: B,
}

/// Node `i` is interior and its two children lie after it inside the vector.
pub open spec fn children_ok<B>(nodes: Seq<BVHNode<B>>, i: int) -> bool {
    &&& nodes[i].num_prims == 0
    &&& i < nodes[i].first
    &&& nodes[i].first + 1 < nodes.len()
}

/// From node `i` on, every interior node has its children after it inside the
/// vector, so walking down from `i` always ends at leaves.
pub open spec fn wf_at<B>(nodes: Seq<BVHNode<B>>, i: int) -> bool
    decreases nodes.len() - i,
{
    if !(0 <= i < nodes.len()) {
        false
    } else if nodes[i].num_prims != 0 {
        true
    } else if children_ok(nodes, i) {
        wf_at(nodes, nodes[i].first as int) && wf_at(nodes, nodes[i].first + 1)
    } else {
        false
    }
}

/// The number of leaves below node `i`.
pub open spec fn count_leaves<B>(nodes: Seq<BVHNode<B>>, i: int) -> nat
    decreases nodes.len() - i,
{
    if !(0 <= i < nodes.len()) {
        0
    } else if nodes[i].num_prims != 0 {
        1
    } else if children_ok(nodes, i) {
        count_leaves(nodes, nodes[i].first as int) + count_leaves(nodes, nodes[i].first + 1)
    } else {
        0
    }
}

/// The number of primitives held by the leaves below node `i`.
pub open spec fn count_prims<B>(nodes: Seq<BVHNode<B>>, i: int) -> nat
    decreases nodes.len() - i,
{
    if !(0 <= i < nodes.len()) {
        0
    } else if nodes[i].num_prims != 0 {
        nodes[i].num_prims as nat
    } else if children_ok(nodes, i) {
        count_prims(nodes, nodes[i].first as int) + count_prims(nodes, nodes[i].first + 1)
    } else {
        0
    }
}

/// The number of nodes below node `i`, counting `i`.
pub open spec fn count_nodes<B>(nodes: Seq<BVHNode<B>>, i: int) -> nat
    decreases nodes.len() - i,
{
    if !(0 <= i < nodes.len()) {
        0
    } else if nodes[i].num_prims != 0 {
        1
    } else if children_ok(nodes, i) {
        count_nodes(nodes, nodes[i].first as int) + count_nodes(nodes, nodes[i].first + 1) + 1
    } else {
        0
    }
}

pub open spec fn min_nat(a: nat, b: nat) -> nat {
    if a <= b {
        a
    } else {
        b
    }
}

pub open spec fn max_nat(a: nat, b: nat) -> nat {
    if a >= b {
        a
    } else {
        b
    }
}

/// The fewest primitives that a leaf below node `i` holds.
pub open spec fn prims_min<B>(nodes: Seq<BVHNode<B>>, i: int) -> nat
    decreases nodes.len() - i,
{
    if !(0 <= i < nodes.len()) {
        0
    } else if nodes[i].num_prims != 0 {
        nodes[i].num_prims as nat
    } else if children_ok(nodes, i) {
        min_nat(prims_min(nodes, nodes[i].first as int), prims_min(nodes, nodes[i].first + 1))
    } else {
        0
    }
}

/// The most primitives that a leaf below node `i` holds.
pub open spec fn prims_max<B>(nodes: Seq<BVHNode<B>>, i: int) -> nat
    decreases nodes.len() - i,
{
    if !(0 <= i < nodes.len()) {
        0
    } else if nodes[i].num_prims != 0 {
        nodes[i].num_prims as nat
    } else if children_ok(nodes, i) {
        max_nat(prims_max(nodes, nodes[i].first as int), prims_max(nodes, nodes[i].first + 1))
    } else {
        0
    }
}

/// The depth of the deepest leaf below node `i`, when node `i` is at depth `d`.
pub open spec fn max_depth<B>(nodes: Seq<BVHNode<B>>, i: int, d: nat) -> nat
    decreases nodes.len() - i,
{
    if !(0 <= i < nodes.len()) {
        d
    } else if nodes[i].num_prims != 0 {
        d
    } else if children_ok(nodes, i) {
        max_nat(max_depth(nodes, nodes[i].first as int, d + 1), max_depth(nodes, nodes[i].first + 1, d + 1))
    } else {
        d
    }
}

/// The depth of the shallowest leaf below node `i`, when node `i` is at depth `d`.
pub open spec fn min_depth<B>(nodes: Seq<BVHNode<B>>, i: int, d: nat) -> nat
    decreases nodes.len() - i,
{
    if !(0 <= i < nodes.len()) {
        d
    } else if nodes[i].num_prims != 0 {
        d
    } else if children_ok(nodes, i) {
        min_nat(min_depth(nodes, nodes[i].first as int, d + 1), min_depth(nodes, nodes[i].first + 1, d + 1))
    } else {
        d
    }
}

/// The deepest leaf is at least as deep as the start, and no shallower than the
/// shallowest one.
pub proof fn lemma_depth_bounds<B>(nodes: Seq<BVHNode<B>>, i: int, d: nat)
    ensures
        d <= min_depth(nodes, i, d) <= max_depth(nodes, i, d),
    decreases nodes.len() - i,
{
    if 0 <= i < nodes.len() && nodes[i].num_prims == 0 && children_ok(nodes, i) {
        lemma_depth_bounds(nodes, nodes[i].first as int, d + 1);
        lemma_depth_bounds(nodes, nodes[i].first + 1, d + 1);
    }
}

/// Node `j` lies `k` levels below node `i` (`k == 0`: it is `i`).
pub open spec fn below_at<B>(nodes: Seq<BVHNode<B>>, i: int, j: int, k: nat) -> bool
    decreases nodes.len() - i,
{
    if !(0 <= i < nodes.len()) {
        false
    } else if k == 0 {
        j == i
    } else if nodes[i].num_prims == 0 && children_ok(nodes, i) {
        below_at(nodes, nodes[i].first as int, j, (k - 1) as nat) || below_at(
            nodes,
            nodes[i].first + 1,
            j,
            (k - 1) as nat,
        )
    } else {
        false
    }
}

/// The depth statistics and the leaf sizes bound every leaf below a node: a leaf
/// `k` levels below node `i` (which is at depth `d`) lies no shallower than the
/// shallowest leaf and no deeper than the deepest, and holds no fewer primitives
/// than the smallest leaf and no more than the largest.
pub proof fn law_leaf_statistics_bound_every_leaf<B>(nodes: Seq<BVHNode<B>>, i: int, d: nat, j: int, k: nat)
    requires
        below_at(nodes, i, j, k),
        nodes[j].num_prims != 0,
    ensures
        min_depth(nodes, i, d) <= d + k <= max_depth(nodes, i, d),
        prims_min(nodes, i) <= nodes[j].num_prims <= prims_max(nodes, i),
    decreases nodes.len() - i,
{
    if k > 0 {
        let f = nodes[i].first as int;
        if below_at(nodes, f, j, (k - 1) as nat) {
            law_leaf_statistics_bound_every_leaf(nodes, f, d + 1, j, (k - 1) as nat);
        } else {
            law_leaf_statistics_bound_every_leaf(nodes, f + 1, d + 1, j, (k - 1) as nat);
        }
    }
}

/// In a well-formed hierarchy the depth statistics and the leaf sizes are those of
/// actual leaves below the node: some leaf lies at the shallowest depth, some at
/// the deepest, some holds the fewest primitives and some the most.
pub proof fn law_leaf_statistics_attained<B>(nodes: Seq<BVHNode<B>>, i: int, d: nat)
    requires
        wf_at(nodes, i),
    ensures
        exists|j: int, k: nat|
            #[trigger] below_at(nodes, i, j, k) && nodes[j].num_prims != 0 && d + k == min_depth(nodes, i, d),
        exists|j: int, k: nat|
            #[trigger] below_at(nodes, i, j, k) && nodes[j].num_prims != 0 && d + k == max_depth(nodes, i, d),
        exists|j: int, k: nat|
            #[trigger] below_at(nodes, i, j, k) && nodes[j].num_prims != 0 && nodes[j].num_prims == prims_min(
                nodes,
                i,
            ),
        exists|j: int, k: nat|
            #[trigger] below_at(nodes, i, j, k) && nodes[j].num_prims != 0 && nodes[j].num_prims == prims_max(
                nodes,
                i,
            ),
    decreases nodes.len() - i,
{
    if nodes[i].num_prims != 0 {
        assert(below_at(nodes, i, i, 0));
    } else {
        let f = nodes[i].first as int;
        law_leaf_statistics_attained(nodes, f, d + 1);
        law_leaf_statistics_attained(nodes, f + 1, d + 1);
        // Each statistic takes the value of one child; a witness below that child
        // lies one level deeper below `i`.
        assert forall|c: int, j: int, k: nat|
            (c == f || c == f + 1) && #[trigger] below_at(nodes, c, j, k) implies below_at(nodes, i, j, k + 1) by {
            assert((k + 1 - 1) as nat == k);
        }
        let (j1, k1) = choose|j: int, k: nat|
            #[trigger] below_at(nodes, f, j, k) && nodes[j].num_prims != 0 && d + 1 + k == min_depth(nodes, f, d + 1);
        let (j2, k2) = choose|j: int, k: nat|
            #[trigger] below_at(nodes, f + 1, j, k) && nodes[j].num_prims != 0 && d + 1 + k == min_depth(
                nodes,
                f + 1,
                d + 1,
            );
        assert(below_at(nodes, i, j1, k1 + 1) && below_at(nodes, i, j2, k2 + 1));
        let (j3, k3) = choose|j: int, k: nat|
            #[trigger] below_at(nodes, f, j, k) && nodes[j].num_prims != 0 && d + 1 + k == max_depth(nodes, f, d + 1);
        let (j4, k4) = choose|j: int, k: nat|
            #[trigger] below_at(nodes, f + 1, j, k) && nodes[j].num_prims != 0 && d + 1 + k == max_depth(
                nodes,
                f + 1,
                d + 1,
            );
        assert(below_at(nodes, i, j3, k3 + 1) && below_at(nodes, i, j4, k4 + 1));
        let (j5, k5) = choose|j: int, k: nat|
            #[trigger] below_at(nodes, f, j, k) && nodes[j].num_prims != 0 && nodes[j].num_prims == prims_min(nodes, f);
        let (j6, k6) = choose|j: int, k: nat|
            #[trigger] below_at(nodes, f + 1, j, k) && nodes[j].num_prims != 0 && nodes[j].num_prims == prims_min(
                nodes,
                f + 1,
            );
        assert(below_at(nodes, i, j5, k5 + 1) && below_at(nodes, i, j6, k6 + 1));
        let (j7, k7) = choose|j: int, k: nat|
            #[trigger] below_at(nodes, f, j, k) && nodes[j].num_prims != 0 && nodes[j].num_prims == prims_max(nodes, f);
        let (j8, k8) = choose|j: int, k: nat|
            #[trigger] below_at(nodes, f + 1, j, k) && nodes[j].num_prims != 0 && nodes[j].num_prims == prims_max(
                nodes,
                f + 1,
            );
        assert(below_at(nodes, i, j7, k7 + 1) && below_at(nodes, i, j8, k8 + 1));
    }
}

/// Counts the leaves below node `index`.
pub fn bvh_count_leaves<B>(bvh_nodes: &Vec<BVHNode<B>>, index: usize) -> (r: u32)
    requires
        wf_at(bvh_nodes@, index as int),
        count_leaves(bvh_nodes@, index as int) <= u32::MAX,
    ensures
        r == count_leaves(bvh_nodes@, index as int),
    decreases bvh_nodes@.len() - index,
{
    if bvh_nodes[index].num_prims != 0 {
        1
    } else {
        let left = bvh_nodes[index].first as usize;
        assert(left + 1 < bvh_nodes.len());
        bvh_count_leaves(bvh_nodes, left) + bvh_count_leaves(bvh_nodes, left + 1)
    }
}

/// Counts the primitives in the leaves below node `index`.
pub fn bvh_count_prims<B>(bvh_nodes: &Vec<BVHNode<B>>, index: usize) -> (r: u32)
    requires
        wf_at(bvh_nodes@, index as int),
        count_prims(bvh_nodes@, index as int) <= u32::MAX,
    ensures
        r == count_prims(bvh_nodes@, index as int),
    decreases bvh_nodes@.len() - index,
{
    if bvh_nodes[index].num_prims != 0 {
        bvh_nodes[index].num_prims
    } else {
        let left = bvh_nodes[index].first as usize;
        assert(left + 1 < bvh_nodes.len());
        bvh_count_prims(bvh_nodes, left) + bvh_count_prims(bvh_nodes, left + 1)
    }
}

/// The fewest primitives in a leaf below node `index`.
pub fn bvh_prims_min<B>(bvh_nodes: &Vec<BVHNode<B>>, index: usize) -> (r: u32)
    requires
        wf_at(bvh_nodes@, index as int),
    ensures
        r == prims_min(bvh_nodes@, index as int),
    decreases bvh_nodes@.len() - index,
{
    if bvh_nodes[index].num_prims != 0 {
        bvh_nodes[index].num_prims
    } else {
        let left = bvh_nodes[index].first as usize;
        assert(left + 1 < bvh_nodes.len());
        let a = bvh_prims_min(bvh_nodes, left);
        let b = bvh_prims_min(bvh_nodes, left + 1);
        if a <= b { a } else { b }
    }
}

/// The most primitives in a leaf below node `index`.
pub fn bvh_prims_max<B>(bvh_nodes: &Vec<BVHNode<B>>, index: usize) -> (r: u32)
    requires
        wf_at(bvh_nodes@, index as int),
    ensures
        r == prims_max(bvh_nodes@, index as int),
    decreases bvh_nodes@.len() - index,
{
    if bvh_nodes[index].num_prims != 0 {
        bvh_nodes[index].num_prims
    } else {
        let left = bvh_nodes[index].first as usize;
        assert(left + 1 < bvh_nodes.len());
        let a = bvh_prims_max(bvh_nodes, left);
        let b = bvh_prims_max(bvh_nodes, left + 1);
        if a >= b { a } else { b }
    }
}

/// The depth of the deepest leaf below node `index`, which is at depth `depth`.
pub fn bvh_depth<B>(bvh_nodes: &Vec<BVHNode<B>>, index: usize, depth: u32) -> (r: u32)
    requires
        wf_at(bvh_nodes@, index as int),
        max_depth(bvh_nodes@, index as int, depth as nat) <= u32::MAX,
    ensures
        r == max_depth(bvh_nodes@, index as int, depth as nat),
    decreases bvh_nodes@.len() - index,
{
    if bvh_nodes[index].num_prims != 0 {
        depth
    } else {
        let left = bvh_nodes[index].first as usize;
        assert(left + 1 < bvh_nodes.len());
        proof {
            lemma_depth_bounds(bvh_nodes@, left as int, (depth + 1) as nat);
            lemma_depth_bounds(bvh_nodes@, left + 1, (depth + 1) as nat);
        }
        let a = bvh_depth(bvh_nodes, left, depth + 1);
        let b = bvh_depth(bvh_nodes, left + 1, depth + 1);
        if a >= b { a } else { b }
    }
}

/// The depth of the shallowest leaf below node `index`, which is at depth `depth`.
/// Every path is walked, so the deepest leaf's depth must fit a `u32`.
pub fn bvh_shallowness<B>(bvh_nodes: &Vec<BVHNode<B>>, index: usize, depth: u32) -> (r: u32)
    requires
        wf_at(bvh_nodes@, index as int),
        max_depth(bvh_nodes@, index as int, depth as nat) <= u32::MAX,
    ensures
        r == min_depth(bvh_nodes@, index as int, depth as nat),
    decreases bvh_nodes@.len() - index,
{
    if bvh_nodes[index].num_prims != 0 {
        depth
    } else {
        let left = bvh_nodes[index].first as usize;
        assert(left + 1 < bvh_nodes.len());
        proof {
            lemma_depth_bounds(bvh_nodes@, left as int, (depth + 1) as nat);
            lemma_depth_bounds(bvh_nodes@, left + 1, (depth + 1) as nat);
        }
        let a = bvh_shallowness(bvh_nodes, left, depth + 1);
        let b = bvh_shallowness(bvh_nodes, left + 1, depth + 1);
        if a <= b { a } else { b }
    }
}

/// Counts the nodes below node `index`, including it.
pub fn bvh_count_nodes<B>(bvh_nodes: &Vec<BVHNode<B>>, index: usize) -> (r: u32)
    requires
        wf_at(bvh_nodes@, index as int),
        count_nodes(bvh_nodes@, index as int) <= u32::MAX,
    ensures
        r == count_nodes(bvh_nodes@, index as int),
    decreases bvh_nodes@.len() - index,
{
    if bvh_nodes[index].num_prims != 0 {
        1
    } else {
        let left = bvh_nodes[index].first as usize;
        assert(left + 1 < bvh_nodes.len());
        bvh_count_nodes(bvh_nodes, left) + bvh_count_nodes(bvh_nodes, left + 1) + 1
    }
}

/// The balance of an interior node: the primitive counts below its two children,
/// the smaller one first. A leaf has none. (The imbalance is the larger count
/// divided by the smaller one.)
pub fn bvh_node_imbalance<B>(bvh_nodes: &Vec<BVHNode<B>>, index: usize) -> (r: Option<(u32, u32)>)
    requires
        wf_at(bvh_nodes@, index as int),
        count_prims(bvh_nodes@, index as int) <= u32::MAX,
    ensures
        bvh_nodes@[index as int].num_prims != 0 <==> r is None,
        r matches Some((smaller, larger)) ==> {
            let nodes = bvh_nodes@;
            let a = count_prims(nodes, nodes[index as int].first as int);
            let b = count_prims(nodes, nodes[index as int].first + 1);
            &&& smaller == min_nat(a, b)
            &&& larger == max_nat(a, b)
        },
{
    if bvh_nodes[index].num_prims != 0 {
        None
    } else {
        let left = bvh_nodes[index].first as usize;
        assert(left + 1 < bvh_nodes.len());
        let a = bvh_count_prims(bvh_nodes, left);
        let b = bvh_count_prims(bvh_nodes, left + 1);
        if a < b {
            Some((a, b))
        } else {
            Some((b, a))
        }
    }
}

/// The balance of interior node `i`: the primitive counts below its two
/// children, the smaller one first.
pub open spec fn balance<B>(nodes: Seq<BVHNode<B>>, i: int) -> (nat, nat) {
    let a = count_prims(nodes, nodes[i].first as int);
    let b = count_prims(nodes, nodes[i].first + 1);
    (min_nat(a, b), max_nat(a, b))
}

/// The imbalance of `p` (its larger count over its smaller one) is at most that
/// of `q`; compared without dividing.
pub open spec fn imbalance_le(p: (nat, nat), q: (nat, nat)) -> bool {
    p.1 * q.0 <= q.1 * p.0
}

/// Of two balances, one with the smaller imbalance; a missing one counts as
/// infinitely imbalanced.
pub open spec fn less_imbalanced(a: Option<(nat, nat)>, b: Option<(nat, nat)>) -> Option<(nat, nat)> {
    match (a, b) {
        (None, _) => b,
        (_, None) => a,
        (Some(p), Some(q)) => if imbalance_le(p, q) { a } else { b },
    }
}

/// Of two balances, one with the larger imbalance; a missing one counts as
/// infinitely balanced.
pub open spec fn more_imbalanced(a: Option<(nat, nat)>, b: Option<(nat, nat)>) -> Option<(nat, nat)> {
    match (a, b) {
        (None, _) => b,
        (_, None) => a,
        (Some(p), Some(q)) => if imbalance_le(q, p) { a } else { b },
    }
}

/// The balance of the least imbalanced interior node below node `i`, if there is
/// one.
pub open spec fn min_imbalance<B>(nodes: Seq<BVHNode<B>>, i: int) -> Option<(nat, nat)>
    decreases nodes.len() - i,
{
    if !(0 <= i < nodes.len()) || nodes[i].num_prims != 0 || !children_ok(nodes, i) {
        None
    } else {
        less_imbalanced(
            less_imbalanced(min_imbalance(nodes, nodes[i].first as int), min_imbalance(nodes, nodes[i].first + 1)),
            Some(balance(nodes, i)),
        )
    }
}

/// The balance of the most imbalanced interior node below node `i`, if there is
/// one.
pub open spec fn max_imbalance<B>(nodes: Seq<BVHNode<B>>, i: int) -> Option<(nat, nat)>
    decreases nodes.len() - i,
{
    if !(0 <= i < nodes.len()) || nodes[i].num_prims != 0 || !children_ok(nodes, i) {
        None
    } else {
        more_imbalanced(
            more_imbalanced(max_imbalance(nodes, nodes[i].first as int), max_imbalance(nodes, nodes[i].first + 1)),
            Some(balance(nodes, i)),
        )
    }
}

/// A pair of `u32` counts as natural numbers.
pub open spec fn pair_view(p: Option<(u32, u32)>) -> Option<(nat, nat)> {
    match p {
        Some((a, b)) => Some((a as nat, b as nat)),
        None => None,
    }
}

/// The product of two `u32` values, which always fits a `u64`.
fn wide_mul(x: u32, y: u32) -> (r: u64)
    ensures
        r == x * y,
{
    assert(x * y <= u32::MAX * u32::MAX) by (nonlinear_arith)
        requires
            x <= u32::MAX,
            y <= u32::MAX,
    ;
    (x as u64) * (y as u64)
}

fn less_imbalanced_exec(a: Option<(u32, u32)>, b: Option<(u32, u32)>) -> (r: Option<(u32, u32)>)
    ensures
        pair_view(r) == less_imbalanced(pair_view(a), pair_view(b)),
{
    match (a, b) {
        (None, _) => b,
        (_, None) => a,
        (Some(p), Some(q)) => {
            if wide_mul(p.1, q.0) <= wide_mul(q.1, p.0) { a } else { b }
        },
    }
}

fn more_imbalanced_exec(a: Option<(u32, u32)>, b: Option<(u32, u32)>) -> (r: Option<(u32, u32)>)
    ensures
        pair_view(r) == more_imbalanced(pair_view(a), pair_view(b)),
{
    match (a, b) {
        (None, _) => b,
        (_, None) => a,
        (Some(p), Some(q)) => {
            if wide_mul(q.1, p.0) <= wide_mul(p.1, q.0) { a } else { b }
        },
    }
}

/// The balance of the least imbalanced interior node below node `index`
/// (`None` where there is no interior node: an infinite imbalance).
pub fn bvh_min_imbalance<B>(bvh_nodes: &Vec<BVHNode<B>>, index: usize) -> (r: Option<(u32, u32)>)
    requires
        wf_at(bvh_nodes@, index as int),
        count_prims(bvh_nodes@, index as int) <= u32::MAX,
    ensures
        pair_view(r) == min_imbalance(bvh_nodes@, index as int),
    decreases bvh_nodes@.len() - index,
{
    if bvh_nodes[index].num_prims != 0 {
        None
    } else {
        let left = bvh_nodes[index].first as usize;
        assert(left + 1 < bvh_nodes.len());
        let a = bvh_min_imbalance(bvh_nodes, left);
        let b = bvh_min_imbalance(bvh_nodes, left + 1);
        let here = bvh_node_imbalance(bvh_nodes, index);
        less_imbalanced_exec(less_imbalanced_exec(a, b), here)
    }
}

/// The balance of the most imbalanced interior node below node `index`
/// (`None` where there is no interior node).
pub fn bvh_max_imbalance<B>(bvh_nodes: &Vec<BVHNode<B>>, index: usize) -> (r: Option<(u32, u32)>)
    requires
        wf_at(bvh_nodes@, index as int),
        count_prims(bvh_nodes@, index as int) <= u32::MAX,
    ensures
        pair_view(r) == max_imbalance(bvh_nodes@, index as int),
    decreases bvh_nodes@.len() - index,
{
    if bvh_nodes[index].num_prims != 0 {
        None
    } else {
        let left = bvh_nodes[index].first as usize;
        assert(left + 1 < bvh_nodes.len());
        let a = bvh_max_imbalance(bvh_nodes, left);
        let b = bvh_max_imbalance(bvh_nodes, left + 1);
        let here = bvh_node_imbalance(bvh_nodes, index);
        more_imbalanced_exec(more_imbalanced_exec(a, b), here)
    }
}

/// A well-formed subtree holds at least one primitive.
proof fn lemma_count_prims_pos<B>(nodes: Seq<BVHNode<B>>, i: int)
    requires
        wf_at(nodes, i),
    ensures
        count_prims(nodes, i) >= 1,
    decreases nodes.len() - i,
{
    if nodes[i].num_prims == 0 {
        lemma_count_prims_pos(nodes, nodes[i].first as int);
        lemma_count_prims_pos(nodes, nodes[i].first + 1);
    }
}

/// Comparing imbalances is transitive through a balance with a non-empty side.
proof fn lemma_imbalance_trans(p: (nat, nat), q: (nat, nat), r: (nat, nat))
    requires
        q.0 > 0,
        imbalance_le(p, q),
        imbalance_le(q, r),
    ensures
        imbalance_le(p, r),
{
    assert(p.1 * r.0 <= r.1 * p.0) by (nonlinear_arith)
        requires
            q.0 > 0,
            p.1 * q.0 <= q.1 * p.0,
            q.1 * r.0 <= r.1 * q.0,
    {
        assert(p.1 * q.0 * r.0 <= q.1 * p.0 * r.0);
        assert(q.1 * r.0 * p.0 <= r.1 * q.0 * p.0);
        assert(q.0 * (p.1 * r.0) <= q.0 * (r.1 * p.0));
    }
}

/// The less imbalanced of two balances is one of them and no more imbalanced than
/// either; the more imbalanced one likewise no less imbalanced than either.
proof fn lemma_pick_imbalance(x: Option<(nat, nat)>, y: Option<(nat, nat)>)
    ensures
        x is Some || y is Some ==> less_imbalanced(x, y) is Some && more_imbalanced(x, y) is Some,
        less_imbalanced(x, y) == x || less_imbalanced(x, y) == y,
        more_imbalanced(x, y) == x || more_imbalanced(x, y) == y,
        x matches Some(p) ==> imbalance_le(less_imbalanced(x, y)->0, p) && imbalance_le(
            p,
            more_imbalanced(x, y)->0,
        ),
        y matches Some(q) ==> imbalance_le(less_imbalanced(x, y)->0, q) && imbalance_le(
            q,
            more_imbalanced(x, y)->0,
        ),
{
}

/// The balances that `min_imbalance` and `max_imbalance` report have a non-empty
/// smaller side.
proof fn lemma_extreme_imbalance_pos<B>(nodes: Seq<BVHNode<B>>, i: int)
    requires
        wf_at(nodes, i),
    ensures
        min_imbalance(nodes, i) matches Some(p) ==> p.0 >= 1,
        max_imbalance(nodes, i) matches Some(p) ==> p.0 >= 1,
    decreases nodes.len() - i,
{
    if nodes[i].num_prims == 0 {
        let f = nodes[i].first as int;
        lemma_extreme_imbalance_pos(nodes, f);
        lemma_extreme_imbalance_pos(nodes, f + 1);
        lemma_count_prims_pos(nodes, f);
        lemma_count_prims_pos(nodes, f + 1);
        let ma = min_imbalance(nodes, f);
        let mb = min_imbalance(nodes, f + 1);
        lemma_pick_imbalance(ma, mb);
        lemma_pick_imbalance(less_imbalanced(ma, mb), Some(balance(nodes, i)));
        let xa = max_imbalance(nodes, f);
        let xb = max_imbalance(nodes, f + 1);
        lemma_pick_imbalance(xa, xb);
        lemma_pick_imbalance(more_imbalanced(xa, xb), Some(balance(nodes, i)));
    }
}

/// The least and the most imbalanced balance bound the balance of every interior
/// node below a node: no interior node `k` levels below node `i` is less
/// imbalanced than the least or more imbalanced than the most.
pub proof fn law_imbalance_bounds_every_node<B>(nodes: Seq<BVHNode<B>>, i: int, j: int, k: nat)
    requires
        wf_at(nodes, i),
        below_at(nodes, i, j, k),
        nodes[j].num_prims == 0,
    ensures
        min_imbalance(nodes, i) is Some,
        max_imbalance(nodes, i) is Some,
        imbalance_le(min_imbalance(nodes, i)->0, balance(nodes, j)),
        imbalance_le(balance(nodes, j), max_imbalance(nodes, i)->0),
    decreases nodes.len() - i,
{
    let f = nodes[i].first as int;
    let ma = min_imbalance(nodes, f);
    let mb = min_imbalance(nodes, f + 1);
    let xa = max_imbalance(nodes, f);
    let xb = max_imbalance(nodes, f + 1);
    let here = Some(balance(nodes, i));
    lemma_pick_imbalance(ma, mb);
    lemma_pick_imbalance(less_imbalanced(ma, mb), here);
    lemma_pick_imbalance(xa, xb);
    lemma_pick_imbalance(more_imbalanced(xa, xb), here);
    if k > 0 {
        let c = if below_at(nodes, f, j, (k - 1) as nat) { f } else { f + 1 };
        law_imbalance_bounds_every_node(nodes, c, j, (k - 1) as nat);
        lemma_extreme_imbalance_pos(nodes, f);
        lemma_extreme_imbalance_pos(nodes, f + 1);
        let pc = min_imbalance(nodes, c)->0;
        let qc = max_imbalance(nodes, c)->0;
        // Through the pick among the children, then through the child's extreme.
        let lm = less_imbalanced(ma, mb)->0;
        let mx = more_imbalanced(xa, xb)->0;
        lemma_imbalance_trans(min_imbalance(nodes, i)->0, lm, pc);
        lemma_imbalance_trans(min_imbalance(nodes, i)->0, pc, balance(nodes, j));
        lemma_imbalance_trans(balance(nodes, j), qc, mx);
        lemma_imbalance_trans(balance(nodes, j), mx, max_imbalance(nodes, i)->0);
    }
}

} // verus!
