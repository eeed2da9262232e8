use vstd::prelude::*;

use crate::bvh::{children_ok, count_leaves, count_nodes, count_prims, wf_at, BVHNode};

verus! {

/// The box test `hit` reports a hit for the box `b`.
pub open spec fn box_hit<B, FH: Fn(&B) -> bool>(hit: FH, b: B) -> bool {
    hit.ensures((&b,), true)
}

/// The leaves below node `i` whose box and whose ancestors' boxes (from `i` down)
/// are all hit, from left to right.
pub open spec fn hit_leaves<B, FH: Fn(&B) -> bool>(nodes: Seq<BVHNode<B>>, i: int, hit: FH) -> Seq<usize>
    decreases nodes.len() - i,
{
    if !(0 <= i < nodes.len()) || !box_hit(hit, nodes[i].aabb) {
        Seq::empty()
    } else if nodes[i].num_prims != 0 {
        seq![i as usize]
    } else if children_ok(nodes, i) {
        hit_leaves(nodes, nodes[i].first as int, hit) + hit_leaves(nodes, nodes[i].first + 1, hit)
    } else {
        Seq::empty()
    }
}

/// The number of boxes tested while walking down from node `i`: a node's box is
/// tested, and the children of a hit interior node are walked.
pub open spec fn boxes_tested<B, FH: Fn(&B) -> bool>(nodes: Seq<BVHNode<B>>, i: int, hit: FH) -> nat
    decreases nodes.len() - i,
{
    if !(0 <= i < nodes.len()) {
        0
    } else if !box_hit(hit, nodes[i].aabb) || nodes[i].num_prims != 0 {
        1
    } else if children_ok(nodes, i) {
        1 + boxes_tested(nodes, nodes[i].first as int, hit) + boxes_tested(nodes, nodes[i].first + 1, hit)
    } else {
        1
    }
}

/// The number of boxes hit while walking down from node `i`.
pub open spec fn boxes_hit<B, FH: Fn(&B) -> bool>(nodes: Seq<BVHNode<B>>, i: int, hit: FH) -> nat
    decreases nodes.len() - i,
{
    if !(0 <= i < nodes.len()) || !box_hit(hit, nodes[i].aabb) {
        0
    } else if nodes[i].num_prims != 0 {
        1
    } else if children_ok(nodes, i) {
        1 + boxes_hit(nodes, nodes[i].first as int, hit) + boxes_hit(nodes, nodes[i].first + 1, hit)
    } else {
        0
    }
}

/// The total number of primitives in the listed leaves.
pub open spec fn prims_in<B>(nodes: Seq<BVHNode<B>>, leaves: Seq<usize>) -> nat
    decreases leaves.len(),
{
    if leaves.len() == 0 {
        0
    } else {
        prims_in(nodes, leaves.drop_last()) + nodes[leaves.last() as int].num_prims as nat
    }
}

/// What the nodes still on the stack (top last) will yield, top first.
pub open spec fn stack_leaves<B, FH: Fn(&B) -> bool>(nodes: Seq<BVHNode<B>>, stack: Seq<usize>, hit: FH) -> Seq<usize>
    decreases stack.len(),
{
    if stack.len() == 0 {
        Seq::empty()
    } else {
        hit_leaves(nodes, stack.last() as int, hit) + stack_leaves(nodes, stack.drop_last(), hit)
    }
}

pub open spec fn stack_tested<B, FH: Fn(&B) -> bool>(nodes: Seq<BVHNode<B>>, stack: Seq<usize>, hit: FH) -> nat
    decreases stack.len(),
{
    if stack.len() == 0 {
        0
    } else {
        boxes_tested(nodes, stack.last() as int, hit) + stack_tested(nodes, stack.drop_last(), hit)
    }
}

pub open spec fn stack_hit<B, FH: Fn(&B) -> bool>(nodes: Seq<BVHNode<B>>, stack: Seq<usize>, hit: FH) -> nat
    decreases stack.len(),
{
    if stack.len() == 0 {
        0
    } else {
        boxes_hit(nodes, stack.last() as int, hit) + stack_hit(nodes, stack.drop_last(), hit)
    }
}

/// Node `j` is node `i` or lies below it, and the box of every node on the way,
/// `i` and `j` included, is hit.
pub open spec fn reached_through_box_hits<B, FH: Fn(&B) -> bool>(nodes: Seq<BVHNode<B>>, i: int, j: int, hit: FH) -> bool
    decreases nodes.len() - i,
{
    if !(0 <= i < nodes.len()) || !box_hit(hit, nodes[i].aabb) {
        false
    } else if i == j {
        true
    } else if nodes[i].num_prims == 0 && children_ok(nodes, i) {
        reached_through_box_hits(nodes, nodes[i].first as int, j, hit) || reached_through_box_hits(
            nodes,
            nodes[i].first + 1,
            j,
            hit,
        )
    } else {
        false
    }
}

/// A node reached from node `a` has an index no smaller than `a`.
proof fn lemma_reached_not_before<B, FH: Fn(&B) -> bool>(nodes: Seq<BVHNode<B>>, a: int, j: int, hit: FH)
    requires
        reached_through_box_hits(nodes, a, j, hit),
    ensures
        a <= j,
    decreases nodes.len() - a,
{
    if j != a {
        let f = nodes[a].first as int;
        if reached_through_box_hits(nodes, f, j, hit) {
            lemma_reached_not_before(nodes, f, j, hit);
        } else {
            lemma_reached_not_before(nodes, f + 1, j, hit);
        }
    }
}

/// Whether one node is among the leaves the walk collects.
proof fn lemma_hit_leaves_member<B, FH: Fn(&B) -> bool>(nodes: Seq<BVHNode<B>>, i: int, hit: FH, j: int)
    requires
        nodes.len() <= usize::MAX,
        0 <= j < nodes.len(),
    ensures
        hit_leaves(nodes, i, hit).contains(j as usize) <==> (reached_through_box_hits(nodes, i, j, hit)
            && nodes[j].num_prims != 0),
    decreases nodes.len() - i,
{
    let hl = hit_leaves(nodes, i, hit);
    if 0 <= i < nodes.len() && box_hit(hit, nodes[i].aabb) {
        if nodes[i].num_prims != 0 {
            assert(hl =~= seq![i as usize]);
            if hl.contains(j as usize) {
                let k = choose|k: int| 0 <= k < hl.len() && hl[k] == j as usize;
                assert(k == 0);
            }
            if j == i {
                assert(hl[0] == j as usize);
            }
        } else if children_ok(nodes, i) {
            let f = nodes[i].first as int;
            lemma_hit_leaves_member(nodes, f, hit, j);
            lemma_hit_leaves_member(nodes, f + 1, hit, j);
            let l = hit_leaves(nodes, f, hit);
            let r = hit_leaves(nodes, f + 1, hit);
            assert(hl == l + r);
            if hl.contains(j as usize) {
                let k = choose|k: int| 0 <= k < hl.len() && hl[k] == j as usize;
                if k < l.len() {
                    assert(l[k] == j as usize);
                    assert(l.contains(j as usize));
                    lemma_reached_not_before(nodes, f, j, hit);
                } else {
                    assert(r[k - l.len()] == j as usize);
                    assert(r.contains(j as usize));
                    lemma_reached_not_before(nodes, f + 1, j, hit);
                }
                assert(reached_through_box_hits(nodes, i, j, hit));
            }
            if reached_through_box_hits(nodes, i, j, hit) && nodes[j].num_prims != 0 {
                if reached_through_box_hits(nodes, f, j, hit) {
                    let k = choose|k: int| 0 <= k < l.len() && l[k] == j as usize;
                    assert(hl[k] == j as usize);
                } else {
                    let k = choose|k: int| 0 <= k < r.len() && r[k] == j as usize;
                    assert((l + r)[l.len() + k] == r[k]);
                    assert(hl[l.len() + k] == j as usize);
                }
            }
        }
    }
}

/// The walk collects exactly the leaves whose box, and the boxes of all nodes above
/// them up to the start, are hit.
pub proof fn law_hit_leaves_are_the_reached_leaves<B, FH: Fn(&B) -> bool>(nodes: Seq<BVHNode<B>>, i: int, hit: FH)
    requires
        nodes.len() <= usize::MAX,
    ensures
        forall|j: int|
            0 <= j < nodes.len() ==> (hit_leaves(nodes, i, hit).contains(j as usize) <==> (
            #[trigger] reached_through_box_hits(nodes, i, j, hit) && nodes[j].num_prims != 0)),
{
    assert forall|j: int| 0 <= j < nodes.len() implies (hit_leaves(nodes, i, hit).contains(j as usize) <==> (
    #[trigger] reached_through_box_hits(nodes, i, j, hit) && nodes[j].num_prims != 0)) by {
        lemma_hit_leaves_member(nodes, i, hit, j);
    }
}

/// The leaves that a walk of the hierarchy reaches through hit boxes, and what the
/// walk counted.
pub struct LeafVisit {
    /// The reached leaves, from left to right.
    pub leaves: Vec<usize>,
    pub num_aabb_checks: u32,
    pub num_aabb_hits: u32,
    /// The total number of primitives in the reached leaves.
    pub num_primitive_checks: u32,
}

/// The listed leaf counts add up.
proof fn lemma_prims_in_push<B>(nodes: Seq<BVHNode<B>>, leaves: Seq<usize>, j: usize)
    ensures
        prims_in(nodes, leaves.push(j)) == prims_in(nodes, leaves) + nodes[j as int].num_prims,
{
    assert(leaves.push(j).drop_last() =~= leaves);
}

/// Walks the hierarchy depth first from the root, left child before right child,
/// testing each reached node's box with `hit` and going below only hit boxes, and
/// collects the reached leaves. The box test must give one answer per box.
#[verifier::spinoff_prover]
#[verifier::rlimit(60)]
pub fn visit_hit_leaves<B, FH>(bvh_nodes: &Vec<BVHNode<B>>, hit: &FH) -> (r: LeafVisit) where
    FH: Fn(&B) -> bool,

    requires
        wf_at(bvh_nodes@, 0),
        forall|b: &B| #[trigger] hit.requires((b,)),
        forall|b: &B| !(#[trigger] hit.ensures((b,), true) && hit.ensures((b,), false)),
        boxes_tested(bvh_nodes@, 0, *hit) <= u32::MAX,
        prims_in(bvh_nodes@, hit_leaves(bvh_nodes@, 0, *hit)) <= u32::MAX,
    ensures
        r.leaves@ == hit_leaves(bvh_nodes@, 0, *hit),
        r.num_aabb_checks == boxes_tested(bvh_nodes@, 0, *hit),
        r.num_aabb_hits == boxes_hit(bvh_nodes@, 0, *hit),
        r.num_primitive_checks == prims_in(bvh_nodes@, r.leaves@),
{
    let ghost nodes = bvh_nodes@;
    let ghost all = hit_leaves(nodes, 0, *hit);
    let mut num_aabb_intersects: u32 = 0;
    let mut num_aabb_checks: u32 = 0;
    let mut num_primitive_checks: u32 = 0;
    let mut to_discover: Vec<usize> = Vec::new();
    let mut visited_leaf_nodes: Vec<usize> = Vec::new();
    to_discover.push(0);
    proof {
        assert(to_discover@.drop_last() =~= Seq::<usize>::empty());
        assert(stack_leaves(nodes, to_discover@, *hit) == hit_leaves(nodes, 0, *hit) + stack_leaves(
            nodes,
            Seq::<usize>::empty(),
            *hit,
        ));
        assert(visited_leaf_nodes@ + stack_leaves(nodes, to_discover@, *hit) =~= all);
        assert(stack_tested(nodes, to_discover@, *hit) == boxes_tested(nodes, 0, *hit) + stack_tested(
            nodes,
            Seq::<usize>::empty(),
            *hit,
        ));
        assert(stack_hit(nodes, to_discover@, *hit) == boxes_hit(nodes, 0, *hit) + stack_hit(
            nodes,
            Seq::<usize>::empty(),
            *hit,
        ));
        lemma_hit_le_tested(nodes, 0, *hit);
    }
    while to_discover.len() != 0
        invariant
            nodes == bvh_nodes@,
            all == hit_leaves(nodes, 0, *hit),
            forall|b: &B| #[trigger] hit.requires((b,)),
            forall|b: &B| !(#[trigger] hit.ensures((b,), true) && hit.ensures((b,), false)),
            forall|k: int| 0 <= k < to_discover@.len() ==> wf_at(nodes, #[trigger] to_discover@[k] as int),
            visited_leaf_nodes@ + stack_leaves(nodes, to_discover@, *hit) == all,
            num_aabb_checks + stack_tested(nodes, to_discover@, *hit) == boxes_tested(nodes, 0, *hit),
            num_aabb_intersects + stack_hit(nodes, to_discover@, *hit) == boxes_hit(nodes, 0, *hit),
            num_aabb_intersects <= num_aabb_checks,
            boxes_tested(nodes, 0, *hit) <= u32::MAX,
            boxes_hit(nodes, 0, *hit) <= boxes_tested(nodes, 0, *hit),
            num_primitive_checks == prims_in(nodes, visited_leaf_nodes@),
            prims_in(nodes, all) <= u32::MAX,
        decreases stack_tested(nodes, to_discover@, *hit),
    {
        let ghost before = to_discover@;
        let idx = to_discover.pop().unwrap();
        assert(before.drop_last() =~= to_discover@);
        assert(wf_at(nodes, idx as int));
        assert(stack_leaves(nodes, before, *hit) == hit_leaves(nodes, idx as int, *hit) + stack_leaves(
            nodes,
            to_discover@,
            *hit,
        ));
        assert(stack_tested(nodes, before, *hit) == boxes_tested(nodes, idx as int, *hit) + stack_tested(
            nodes,
            to_discover@,
            *hit,
        ));
        assert(stack_hit(nodes, before, *hit) == boxes_hit(nodes, idx as int, *hit) + stack_hit(
            nodes,
            to_discover@,
            *hit,
        ));
        let node = &bvh_nodes[idx];
        proof {
            lemma_hit_le_tested(nodes, idx as int, *hit);
            lemma_stack_hit_le_tested(nodes, to_discover@, *hit);
        }
        num_aabb_checks += 1;
        let is_hit = hit(&node.aabb);
        proof {
            assert(!(hit.ensures((&node.aabb,), true) && hit.ensures((&node.aabb,), false)));
            assert(box_hit(*hit, nodes[idx as int].aabb) == is_hit);
        }
        if !is_hit {
            assert(visited_leaf_nodes@ + stack_leaves(nodes, to_discover@, *hit) =~= all);
            continue;
        } else {
            num_aabb_intersects += 1;
            if node.num_prims > 0 {
                proof {
                    assert(hit_leaves(nodes, idx as int, *hit) == seq![idx]);
                    lemma_prims_in_push(nodes, visited_leaf_nodes@, idx);
                    assert(visited_leaf_nodes@.push(idx) + stack_leaves(nodes, to_discover@, *hit) =~= all);
                    lemma_prims_in_prefix(nodes, visited_leaf_nodes@.push(idx), stack_leaves(nodes, to_discover@, *hit));
                }
                visited_leaf_nodes.push(idx);
                num_primitive_checks += node.num_prims;
            } else {
                let left = node.first as usize;
                assert(left + 1 < bvh_nodes.len());
                let ghost rest = to_discover@;
                to_discover.push(left + 1);
                to_discover.push(left);
                proof {
                    let mid = rest.push((left + 1) as usize);
                    assert(to_discover@.drop_last() =~= mid);
                    assert(mid.drop_last() =~= rest);
                    assert(children_ok(nodes, idx as int));
                    assert(hit_leaves(nodes, idx as int, *hit) == hit_leaves(nodes, left as int, *hit)
                        + hit_leaves(nodes, left + 1, *hit));
                    assert(stack_leaves(nodes, mid, *hit) == hit_leaves(nodes, left + 1, *hit)
                        + stack_leaves(nodes, rest, *hit));
                    assert(stack_leaves(nodes, to_discover@, *hit) == hit_leaves(nodes, left as int, *hit)
                        + stack_leaves(nodes, mid, *hit));
                    assert(visited_leaf_nodes@ + stack_leaves(nodes, to_discover@, *hit) =~= all);
                    assert(stack_tested(nodes, to_discover@, *hit) == boxes_tested(nodes, left as int, *hit)
                        + stack_tested(nodes, mid, *hit));
                    assert(stack_tested(nodes, mid, *hit) == boxes_tested(nodes, left + 1, *hit)
                        + stack_tested(nodes, rest, *hit));
                    assert(stack_hit(nodes, to_discover@, *hit) == boxes_hit(nodes, left as int, *hit)
                        + stack_hit(nodes, mid, *hit));
                    assert(stack_hit(nodes, mid, *hit) == boxes_hit(nodes, left + 1, *hit)
                        + stack_hit(nodes, rest, *hit));
                    assert(forall|k: int| 0 <= k < to_discover@.len() ==> wf_at(nodes, #[trigger] to_discover@[k] as int));
                }
            }
        }
    }
    LeafVisit {
        leaves: visited_leaf_nodes,
        num_aabb_checks,
        num_aabb_hits: num_aabb_intersects,
        num_primitive_checks,
    }
}

/// Hit boxes are among the tested ones.
proof fn lemma_hit_le_tested<B, FH: Fn(&B) -> bool>(nodes: Seq<BVHNode<B>>, i: int, hit: FH)
    ensures
        boxes_hit(nodes, i, hit) <= boxes_tested(nodes, i, hit),
    decreases nodes.len() - i,
{
    if 0 <= i < nodes.len() && box_hit(hit, nodes[i].aabb) && nodes[i].num_prims == 0 && children_ok(nodes, i) {
        lemma_hit_le_tested(nodes, nodes[i].first as int, hit);
        lemma_hit_le_tested(nodes, nodes[i].first + 1, hit);
    }
}

proof fn lemma_stack_hit_le_tested<B, FH: Fn(&B) -> bool>(nodes: Seq<BVHNode<B>>, stack: Seq<usize>, hit: FH)
    ensures
        stack_hit(nodes, stack, hit) <= stack_tested(nodes, stack, hit),
    decreases stack.len(),
{
    if stack.len() > 0 {
        lemma_hit_le_tested(nodes, stack.last() as int, hit);
        lemma_stack_hit_le_tested(nodes, stack.drop_last(), hit);
    }
}

/// The primitive count of a prefix is at most that of the whole list.
proof fn lemma_prims_in_prefix<B>(nodes: Seq<BVHNode<B>>, a: Seq<usize>, b: Seq<usize>)
    ensures
        prims_in(nodes, a) <= prims_in(nodes, a + b),
    decreases b.len(),
{
    if b.len() > 0 {
        lemma_prims_in_prefix(nodes, a, b.drop_last());
        assert((a + b).drop_last() =~= a + b.drop_last());
    } else {
        assert(a + b =~= a);
    }
}

/// What an ordered walk reports: the hit it found, if any, and the boxes tested, the
/// boxes hit and the primitives tested until then.
pub type WalkOutcome<R> = (Option<R>, nat, nat, nat);

/// Walking `first` and then, if it found nothing, `second`.
pub open spec fn then_walk<R>(first: WalkOutcome<R>, second: WalkOutcome<R>) -> WalkOutcome<R> {
    if first.0 is Some {
        first
    } else {
        (second.0, first.1 + second.1, first.2 + second.2, first.3 + second.3)
    }
}

/// The distance that `dist` gives for the box `b` (`None`: the box is missed).
pub open spec fn box_dist<B, D, FD: Fn(&B) -> Option<D>>(dist: FD, b: B) -> Option<D> {
    choose|r: Option<D>| dist.ensures((&b,), r)
}

/// `nearer` says that distance `x` is nearer than distance `y`.
pub open spec fn is_nearer<D, FN: Fn(&D, &D) -> bool>(nearer: FN, x: D, y: D) -> bool {
    nearer.ensures((&x, &y), true)
}

/// The hit that `leaf_hit` finds among the primitives of the leaf `n`.
pub open spec fn leaf_result<B, R, FL: Fn(&BVHNode<B>) -> Option<R>>(leaf_hit: FL, n: BVHNode<B>) -> Option<R> {
    choose|r: Option<R>| leaf_hit.ensures((&n,), r)
}

/// The walk down from node `i`, nearer child first: a leaf is asked for a hit among
/// its primitives; an interior node has both children's boxes tested, and walks
/// below those that are hit, the nearer one first, until a leaf gives a hit.
pub open spec fn ordered_walk<B, D, R, FD: Fn(&B) -> Option<D>, FN: Fn(&D, &D) -> bool, FL: Fn(&BVHNode<B>) -> Option<R>>(
    nodes: Seq<BVHNode<B>>,
    i: int,
    dist: FD,
    nearer: FN,
    leaf_hit: FL,
) -> WalkOutcome<R>
    decreases nodes.len() - i,
{
    if !(0 <= i < nodes.len()) {
        (None, 0, 0, 0)
    } else if nodes[i].num_prims != 0 {
        (leaf_result(leaf_hit, nodes[i]), 0, 0, nodes[i].num_prims as nat)
    } else if children_ok(nodes, i) {
        let a = nodes[i].first as int;
        let b = a + 1;
        match (box_dist(dist, nodes[a].aabb), box_dist(dist, nodes[b].aabb)) {
            (None, None) => (None, 2, 0, 0),
            (None, Some(_)) => then_walk((None, 2, 1, 0), ordered_walk(nodes, b, dist, nearer, leaf_hit)),
            (Some(_), None) => then_walk((None, 2, 1, 0), ordered_walk(nodes, a, dist, nearer, leaf_hit)),
            (Some(x), Some(y)) => if is_nearer(nearer, x, y) {
                then_walk(
                    (None, 2, 2, 0),
                    then_walk(
                        ordered_walk(nodes, a, dist, nearer, leaf_hit),
                        ordered_walk(nodes, b, dist, nearer, leaf_hit),
                    ),
                )
            } else {
                then_walk(
                    (None, 2, 2, 0),
                    then_walk(
                        ordered_walk(nodes, b, dist, nearer, leaf_hit),
                        ordered_walk(nodes, a, dist, nearer, leaf_hit),
                    ),
                )
            },
        }
    } else {
        (None, 0, 0, 0)
    }
}

/// The walks of the nodes on a stack (top last), top first, until one finds a hit.
pub open spec fn stack_walk<B, D, R, FD: Fn(&B) -> Option<D>, FN: Fn(&D, &D) -> bool, FL: Fn(&BVHNode<B>) -> Option<R>>(
    nodes: Seq<BVHNode<B>>,
    stack: Seq<usize>,
    dist: FD,
    nearer: FN,
    leaf_hit: FL,
) -> WalkOutcome<R>
    decreases stack.len(),
{
    if stack.len() == 0 {
        (None, 0, 0, 0)
    } else {
        then_walk(
            ordered_walk(nodes, stack.last() as int, dist, nearer, leaf_hit),
            stack_walk(nodes, stack.drop_last(), dist, nearer, leaf_hit),
        )
    }
}

/// The number of nodes below the nodes on a stack.
pub open spec fn stack_size<B>(nodes: Seq<BVHNode<B>>, stack: Seq<usize>) -> nat
    decreases stack.len(),
{
    if stack.len() == 0 {
        0
    } else {
        count_nodes(nodes, stack.last() as int) + stack_size(nodes, stack.drop_last())
    }
}

proof fn lemma_then_walk_assoc<R>(x: WalkOutcome<R>, y: WalkOutcome<R>, z: WalkOutcome<R>)
    ensures
        then_walk(then_walk(x, y), z) == then_walk(x, then_walk(y, z)),
{
}

/// Two parts that found nothing add up their counts.
proof fn lemma_then_walk_step<R>(acc: WalkOutcome<R>, k: WalkOutcome<R>, rest: WalkOutcome<R>)
    requires
        acc.0 is None,
        k.0 is None,
    ensures
        then_walk(acc, then_walk(k, rest)) == then_walk((None, acc.1 + k.1, acc.2 + k.2, acc.3 + k.3), rest),
{
}

/// A walk reports at least the counts of its first part.
proof fn lemma_then_walk_counts<R>(x: WalkOutcome<R>, y: WalkOutcome<R>)
    ensures
        then_walk(x, y).1 >= x.1,
        then_walk(x, y).2 >= x.2,
        then_walk(x, y).3 >= x.3,
{
}

/// Node `j` is node `i` or lies below it on a path that only enters children whose
/// boxes `dist` reports as hit.
pub open spec fn reached_through_hits<B, D, FD: Fn(&B) -> Option<D>>(
    nodes: Seq<BVHNode<B>>,
    i: int,
    j: int,
    dist: FD,
) -> bool
    decreases nodes.len() - i,
{
    if !(0 <= i < nodes.len()) {
        false
    } else if i == j {
        true
    } else if nodes[i].num_prims == 0 && children_ok(nodes, i) {
        let a = nodes[i].first as int;
        ||| (box_dist(dist, nodes[a].aabb) is Some && reached_through_hits(nodes, a, j, dist))
        ||| (box_dist(dist, nodes[a + 1].aabb) is Some && reached_through_hits(nodes, a + 1, j, dist))
    } else {
        false
    }
}

/// The ordered walk only looks below boxes that are hit, and misses no hit there:
/// the hit it reports is one that `leaf_hit` gives for a leaf reached from the start
/// through hit boxes only, and where it reports none, no such leaf gives a hit.
pub proof fn law_ordered_walk_follows_hit_boxes<B, D, R, FD: Fn(&B) -> Option<D>, FN: Fn(&D, &D) -> bool, FL: Fn(&BVHNode<B>) -> Option<R>>(
    nodes: Seq<BVHNode<B>>,
    i: int,
    dist: FD,
    nearer: FN,
    leaf_hit: FL,
)
    ensures
        ordered_walk(nodes, i, dist, nearer, leaf_hit).0 is Some ==> exists|j: int|
            {
                &&& #[trigger] reached_through_hits(nodes, i, j, dist)
                &&& nodes[j].num_prims != 0
                &&& leaf_result(leaf_hit, nodes[j]) == ordered_walk(nodes, i, dist, nearer, leaf_hit).0
            },
        ordered_walk(nodes, i, dist, nearer, leaf_hit).0 is None ==> forall|j: int|
            #[trigger] reached_through_hits(nodes, i, j, dist) && nodes[j].num_prims != 0 ==> leaf_result(
                leaf_hit,
                nodes[j],
            ) is None,
    decreases nodes.len() - i,
{
    if 0 <= i < nodes.len() && nodes[i].num_prims == 0 && children_ok(nodes, i) {
        let a = nodes[i].first as int;
        let b = a + 1;
        law_ordered_walk_follows_hit_boxes(nodes, a, dist, nearer, leaf_hit);
        law_ordered_walk_follows_hit_boxes(nodes, b, dist, nearer, leaf_hit);
        let w = ordered_walk(nodes, i, dist, nearer, leaf_hit);
        let wa = ordered_walk(nodes, a, dist, nearer, leaf_hit);
        let wb = ordered_walk(nodes, b, dist, nearer, leaf_hit);
        let da = box_dist(dist, nodes[a].aabb);
        let db = box_dist(dist, nodes[b].aabb);
        // What the walk of the node reports, in terms of its children's walks.
        assert(w.0 == (match (da, db) {
            (None, None) => None,
            (None, Some(_)) => wb.0,
            (Some(_), None) => wa.0,
            (Some(_), Some(_)) => if wa.0 is Some && wb.0 is Some {
                w.0
            } else if wa.0 is Some {
                wa.0
            } else {
                wb.0
            },
        }));
        assert(w.0 is Some ==> (da is Some && wa.0 == w.0) || (db is Some && wb.0 == w.0));
        if w.0 is Some {
            // The hit comes from the walk of a child whose box is hit.
            let from_a = da is Some && wa.0 == w.0;
            let c = if from_a { a } else { b };
            assert(box_dist(dist, nodes[c].aabb) is Some);
            assert(ordered_walk(nodes, c, dist, nearer, leaf_hit).0 == w.0);
            let j = choose|j: int|
                {
                    &&& #[trigger] reached_through_hits(nodes, c, j, dist)
                    &&& nodes[j].num_prims != 0
                    &&& leaf_result(leaf_hit, nodes[j]) == ordered_walk(nodes, c, dist, nearer, leaf_hit).0
                };
            assert(reached_through_hits(nodes, i, j, dist));
        } else {
            assert(da is Some ==> wa.0 is None);
            assert(db is Some ==> wb.0 is None);
            assert forall|j: int|
                #[trigger] reached_through_hits(nodes, i, j, dist) && nodes[j].num_prims != 0 implies leaf_result(
                leaf_hit,
                nodes[j],
            ) is None by {
                assert(j != i);
                assert((da is Some && reached_through_hits(nodes, a, j, dist)) || (db is Some
                    && reached_through_hits(nodes, b, j, dist)));
                if da is Some && reached_through_hits(nodes, a, j, dist) {
                    assert(wa.0 is None);
                } else {
                    assert(wb.0 is None);
                }
            }
        }
    } else if 0 <= i < nodes.len() && nodes[i].num_prims != 0 {
        // A leaf reports what it holds.
        assert(reached_through_hits(nodes, i, i, dist));
    }
}

/// A hit found by the ordered walk, and what the walk counted until it.
pub struct OrderedHit<R> {
    pub hit: R,
    pub num_aabb_checks: u32,
    pub num_aabb_hits: u32,
    pub num_primitive_checks: u32,
}

/// Walks the hierarchy from the root depth first, nearer child first, and stops at
/// the first leaf where `leaf_hit` finds a hit. At an interior node both children's
/// boxes are measured with `dist` (`None`: missed); the hit ones are walked, the one
/// that `nearer` puts first first. Returns that hit and the counts of boxes tested,
/// boxes hit and primitives tested up to it, or `None` where no leaf gives a hit.
/// The three tests must give one answer for one input.
#[verifier::rlimit(60)]
pub fn first_hit_ordered<B, D, R, FD, FN, FL>(
    bvh_nodes: &Vec<BVHNode<B>>,
    dist: &FD,
    nearer: &FN,
    leaf_hit: &FL,
) -> (r: Option<OrderedHit<R>>) where
    FD: Fn(&B) -> Option<D>,
    FN: Fn(&D, &D) -> bool,
    FL: Fn(&BVHNode<B>) -> Option<R>,

    requires
        wf_at(bvh_nodes@, 0),
        forall|b: &B| #[trigger] dist.requires((b,)),
        forall|x: &D, y: &D| #[trigger] nearer.requires((x, y)),
        forall|n: &BVHNode<B>| #[trigger] leaf_hit.requires((n,)),
        forall|b: &B, r1: Option<D>, r2: Option<D>|
            #[trigger] dist.ensures((b,), r1) && #[trigger] dist.ensures((b,), r2) ==> r1 == r2,
        forall|x: &D, y: &D| !(#[trigger] nearer.ensures((x, y), true) && nearer.ensures((x, y), false)),
        forall|n: &BVHNode<B>, r1: Option<R>, r2: Option<R>|
            #[trigger] leaf_hit.ensures((n,), r1) && #[trigger] leaf_hit.ensures((n,), r2) ==> r1 == r2,
        ordered_walk(bvh_nodes@, 0, *dist, *nearer, *leaf_hit).1 <= u32::MAX,
        ordered_walk(bvh_nodes@, 0, *dist, *nearer, *leaf_hit).2 <= u32::MAX,
        ordered_walk(bvh_nodes@, 0, *dist, *nearer, *leaf_hit).3 <= u32::MAX,
    ensures
        r is None <==> ordered_walk(bvh_nodes@, 0, *dist, *nearer, *leaf_hit).0 is None,
        r matches Some(h) ==> ordered_walk(bvh_nodes@, 0, *dist, *nearer, *leaf_hit) == (
            Some(h.hit),
            h.num_aabb_checks as nat,
            h.num_aabb_hits as nat,
            h.num_primitive_checks as nat,
        ),
{
    let ghost nodes = bvh_nodes@;
    let ghost total = ordered_walk(nodes, 0, *dist, *nearer, *leaf_hit);
    let mut num_aabb_intersects: u32 = 0;
    let mut num_aabb_checks: u32 = 0;
    let mut num_primitive_checks: u32 = 0;
    let mut to_discover: Vec<usize> = Vec::new();
    to_discover.push(0);
    proof {
        assert(to_discover@.drop_last() =~= Seq::<usize>::empty());
        assert(stack_walk(nodes, to_discover@, *dist, *nearer, *leaf_hit) == then_walk(
            total,
            stack_walk(nodes, Seq::<usize>::empty(), *dist, *nearer, *leaf_hit),
        ));
        assert(then_walk(total, (None, 0nat, 0nat, 0nat)) == total);
    }
    while to_discover.len() != 0
        invariant
            nodes == bvh_nodes@,
            total == ordered_walk(nodes, 0, *dist, *nearer, *leaf_hit),
            forall|b: &B| #[trigger] dist.requires((b,)),
            forall|x: &D, y: &D| #[trigger] nearer.requires((x, y)),
            forall|n: &BVHNode<B>| #[trigger] leaf_hit.requires((n,)),
            forall|b: &B, r1: Option<D>, r2: Option<D>|
                #[trigger] dist.ensures((b,), r1) && #[trigger] dist.ensures((b,), r2) ==> r1 == r2,
            forall|x: &D, y: &D| !(#[trigger] nearer.ensures((x, y), true) && nearer.ensures((x, y), false)),
            forall|n: &BVHNode<B>, r1: Option<R>, r2: Option<R>|
                #[trigger] leaf_hit.ensures((n,), r1) && #[trigger] leaf_hit.ensures((n,), r2) ==> r1 == r2,
            forall|k: int| 0 <= k < to_discover@.len() ==> wf_at(nodes, #[trigger] to_discover@[k] as int),
            then_walk(
                (None, num_aabb_checks as nat, num_aabb_intersects as nat, num_primitive_checks as nat),
                stack_walk(nodes, to_discover@, *dist, *nearer, *leaf_hit),
            ) == total,
            total.1 <= u32::MAX,
            total.2 <= u32::MAX,
            total.3 <= u32::MAX,
        decreases stack_size(nodes, to_discover@),
    {
        let ghost before = to_discover@;
        let idx = to_discover.pop().unwrap();
        let ghost rest = to_discover@;
        let ghost acc: WalkOutcome<R> = (
            None,
            num_aabb_checks as nat,
            num_aabb_intersects as nat,
            num_primitive_checks as nat,
        );
        let ghost w = ordered_walk(nodes, idx as int, *dist, *nearer, *leaf_hit);
        proof {
            assert(before.drop_last() =~= rest);
            assert(wf_at(nodes, idx as int));
            assert(stack_walk(nodes, before, *dist, *nearer, *leaf_hit) == then_walk(
                w,
                stack_walk(nodes, rest, *dist, *nearer, *leaf_hit),
            ));
            assert(stack_size(nodes, before) == count_nodes(nodes, idx as int) + stack_size(nodes, rest));
            lemma_then_walk_counts(w, stack_walk(nodes, rest, *dist, *nearer, *leaf_hit));
        }
        let node = &bvh_nodes[idx];
        if node.num_prims > 0 {
            let found = leaf_hit(node);
            proof {
                assert(leaf_result(*leaf_hit, nodes[idx as int]) == found);
            }
            num_primitive_checks += node.num_prims;
            match found {
                Some(hit) => {
                    return Some(
                        OrderedHit {
                            hit,
                            num_aabb_checks,
                            num_aabb_hits: num_aabb_intersects,
                            num_primitive_checks,
                        },
                    );
                },
                None => {
                    proof {
                        lemma_then_walk_step(acc, w, stack_walk(nodes, rest, *dist, *nearer, *leaf_hit));
                    }
                },
            }
        } else {
            let a = node.first as usize;
            assert(a + 1 < bvh_nodes.len());
            assert(children_ok(nodes, idx as int));
            num_aabb_checks += 2;
            let da = dist(&bvh_nodes[a].aabb);
            let db = dist(&bvh_nodes[a + 1].aabb);
            proof {
                assert(box_dist(*dist, nodes[a as int].aabb) == da);
                assert(box_dist(*dist, nodes[a + 1].aabb) == db);
            }
            let ghost wa = ordered_walk(nodes, a as int, *dist, *nearer, *leaf_hit);
            let ghost wb = ordered_walk(nodes, a + 1, *dist, *nearer, *leaf_hit);
            let ghost sr = stack_walk(nodes, rest, *dist, *nearer, *leaf_hit);
            proof {
                assert(count_nodes(nodes, idx as int) == count_nodes(nodes, a as int) + count_nodes(nodes, a + 1)
                    + 1);
            }
            match (da, db) {
                (None, None) => {
                    proof {
                        lemma_then_walk_step(acc, w, sr);
                    }
                },
                (None, Some(_)) => {
                    to_discover.push(a + 1);
                    num_aabb_intersects += 1;
                    proof {
                        assert(to_discover@.drop_last() =~= rest);
                        let k: WalkOutcome<R> = (None, 2nat, 1nat, 0nat);
                        assert(w == then_walk(k, wb));
                        lemma_then_walk_assoc(k, wb, sr);
                        lemma_then_walk_step(acc, k, then_walk(wb, sr));
                        assert(stack_size(nodes, to_discover@) == count_nodes(nodes, a + 1) + stack_size(nodes, rest));
                    }
                },
                (Some(_), None) => {
                    to_discover.push(a);
                    num_aabb_intersects += 1;
                    proof {
                        assert(to_discover@.drop_last() =~= rest);
                        let k: WalkOutcome<R> = (None, 2nat, 1nat, 0nat);
                        assert(w == then_walk(k, wa));
                        lemma_then_walk_assoc(k, wa, sr);
                        lemma_then_walk_step(acc, k, then_walk(wa, sr));
                        assert(stack_size(nodes, to_discover@) == count_nodes(nodes, a as int) + stack_size(nodes, rest));
                    }
                },
                (Some(dist_a), Some(dist_b)) => {
                    num_aabb_intersects += 2;
                    let a_first = nearer(&dist_a, &dist_b);
                    proof {
                        assert(is_nearer(*nearer, dist_a, dist_b) == a_first);
                    }
                    if a_first {
                        to_discover.push(a + 1);
                        to_discover.push(a);
                        proof {
                            let mid = rest.push((a + 1) as usize);
                            assert(to_discover@.drop_last() =~= mid);
                            assert(mid.drop_last() =~= rest);
                            let k: WalkOutcome<R> = (None, 2nat, 2nat, 0nat);
                            assert(w == then_walk(k, then_walk(wa, wb)));
                            lemma_then_walk_assoc(wa, wb, sr);
                            lemma_then_walk_assoc(k, then_walk(wa, wb), sr);
                            lemma_then_walk_step(acc, k, then_walk(then_walk(wa, wb), sr));
                            assert(stack_walk(nodes, to_discover@, *dist, *nearer, *leaf_hit) == then_walk(
                                wa,
                                stack_walk(nodes, mid, *dist, *nearer, *leaf_hit),
                            ));
                            assert(stack_size(nodes, mid) == count_nodes(nodes, mid.last() as int) + stack_size(
                                nodes,
                                rest,
                            ));
                            assert(stack_size(nodes, to_discover@) == count_nodes(
                                nodes,
                                to_discover@.last() as int,
                            ) + stack_size(nodes, mid));
                        }
                    } else {
                        to_discover.push(a);
                        to_discover.push(a + 1);
                        proof {
                            let mid = rest.push(a);
                            assert(to_discover@.drop_last() =~= mid);
                            assert(mid.drop_last() =~= rest);
                            let k: WalkOutcome<R> = (None, 2nat, 2nat, 0nat);
                            assert(w == then_walk(k, then_walk(wb, wa)));
                            lemma_then_walk_assoc(wb, wa, sr);
                            lemma_then_walk_assoc(k, then_walk(wb, wa), sr);
                            lemma_then_walk_step(acc, k, then_walk(then_walk(wb, wa), sr));
                            assert(stack_walk(nodes, to_discover@, *dist, *nearer, *leaf_hit) == then_walk(
                                wb,
                                stack_walk(nodes, mid, *dist, *nearer, *leaf_hit),
                            ));
                            assert(stack_size(nodes, mid) == count_nodes(nodes, mid.last() as int) + stack_size(
                                nodes,
                                rest,
                            ));
                            assert(stack_size(nodes, to_discover@) == count_nodes(
                                nodes,
                                to_discover@.last() as int,
                            ) + stack_size(nodes, mid));
                        }
                    }
                },
            }
            proof {
                assert(forall|k: int| 0 <= k < to_discover@.len() ==> wf_at(nodes, #[trigger] to_discover@[k] as int));
            }
        }
    }
    None
}

/// Where every box is hit, the walk to the hit leaves tests and hits the box of
/// every node, collects every leaf, and so every primitive.
pub proof fn law_hit_leaves_when_every_box_is_hit<B, FH: Fn(&B) -> bool>(nodes: Seq<BVHNode<B>>, i: int, hit: FH)
    requires
        nodes.len() <= usize::MAX,
        wf_at(nodes, i),
        forall|b: B| #[trigger] box_hit(hit, b),
    ensures
        boxes_tested(nodes, i, hit) == count_nodes(nodes, i),
        boxes_hit(nodes, i, hit) == count_nodes(nodes, i),
        hit_leaves(nodes, i, hit).len() == count_leaves(nodes, i),
        prims_in(nodes, hit_leaves(nodes, i, hit)) == count_prims(nodes, i),
    decreases nodes.len() - i,
{
    assert(box_hit(hit, nodes[i].aabb));
    if nodes[i].num_prims != 0 {
        let hl = hit_leaves(nodes, i, hit);
        assert(hl =~= seq![i as usize]);
        assert(hl.drop_last() =~= Seq::<usize>::empty());
        assert((i as usize) as int == i);
        assert(prims_in(nodes, hl) == prims_in(nodes, hl.drop_last()) + nodes[hl.last() as int].num_prims);
    } else {
        let f = nodes[i].first as int;
        law_hit_leaves_when_every_box_is_hit(nodes, f, hit);
        law_hit_leaves_when_every_box_is_hit(nodes, f + 1, hit);
        lemma_prims_in_concat(nodes, hit_leaves(nodes, f, hit), hit_leaves(nodes, f + 1, hit));
    }
}

/// The primitive count of two lists of leaves, one after the other, is the sum.
proof fn lemma_prims_in_concat<B>(nodes: Seq<BVHNode<B>>, a: Seq<usize>, b: Seq<usize>)
    ensures
        prims_in(nodes, a + b) == prims_in(nodes, a) + prims_in(nodes, b),
    decreases b.len(),
{
    if b.len() > 0 {
        lemma_prims_in_concat(nodes, a, b.drop_last());
        assert((a + b).drop_last() =~= a + b.drop_last());
        assert((a + b).last() == b.last());
    } else {
        assert(a + b =~= a);
    }
}

/// Where every box is hit and no leaf gives a hit, the ordered walk tests both
/// children's boxes at every interior node, hits them all, asks every leaf, and so
/// tests every primitive, and finds nothing.
pub proof fn law_ordered_walk_when_every_box_is_hit<B, D, R, FD: Fn(&B) -> Option<D>, FN: Fn(&D, &D) -> bool, FL: Fn(&BVHNode<B>) -> Option<R>>(
    nodes: Seq<BVHNode<B>>,
    i: int,
    dist: FD,
    nearer: FN,
    leaf_hit: FL,
)
    requires
        wf_at(nodes, i),
        forall|b: B| #[trigger] box_dist(dist, b) is Some,
        forall|n: BVHNode<B>| #[trigger] leaf_result(leaf_hit, n) is None,
    ensures
        ordered_walk(nodes, i, dist, nearer, leaf_hit).0 is None,
        ordered_walk(nodes, i, dist, nearer, leaf_hit).1 == 2 * (count_nodes(nodes, i) - count_leaves(nodes, i)),
        ordered_walk(nodes, i, dist, nearer, leaf_hit).2 == 2 * (count_nodes(nodes, i) - count_leaves(nodes, i)),
        ordered_walk(nodes, i, dist, nearer, leaf_hit).3 == count_prims(nodes, i),
    decreases nodes.len() - i,
{
    assert(leaf_result(leaf_hit, nodes[i]) is None);
    if nodes[i].num_prims == 0 {
        let f = nodes[i].first as int;
        assert(box_dist(dist, nodes[f].aabb) is Some);
        assert(box_dist(dist, nodes[f + 1].aabb) is Some);
        law_ordered_walk_when_every_box_is_hit(nodes, f, dist, nearer, leaf_hit);
        law_ordered_walk_when_every_box_is_hit(nodes, f + 1, dist, nearer, leaf_hit);
        lemma_leaves_le_nodes(nodes, f);
        lemma_leaves_le_nodes(nodes, f + 1);
    }
}

/// A subtree has at least as many nodes as leaves.
proof fn lemma_leaves_le_nodes<B>(nodes: Seq<BVHNode<B>>, i: int)
    ensures
        count_leaves(nodes, i) <= count_nodes(nodes, i),
    decreases nodes.len() - i,
{
    if 0 <= i < nodes.len() && nodes[i].num_prims == 0 && children_ok(nodes, i) {
        lemma_leaves_le_nodes(nodes, nodes[i].first as int);
        lemma_leaves_le_nodes(nodes, nodes[i].first + 1);
    }
}

} // verus!
