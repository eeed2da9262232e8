use raytrace::bvh::{
    bvh_count_leaves, bvh_count_nodes, bvh_count_prims, bvh_depth, bvh_max_imbalance, bvh_min_imbalance,
    bvh_node_imbalance, bvh_prims_max, bvh_prims_min, bvh_shallowness, BVHNode,
};
use raytrace::bvh_build::{build_bvh, subdivide, BvhError};
use raytrace::bvh_query::{first_hit_ordered, visit_hit_leaves};

type Boxed = (i32, i32);

fn expand(b: &Boxed, t: &i32) -> Boxed {
    (b.0.min(*t), b.1.max(*t))
}

fn midpoint(n: &BVHNode<Boxed>, _prims: &Vec<i32>) -> i32 {
    (n.aabb.0 + n.aabb.1 + 1) / 2
}

fn goes_left(t: &i32, s: &i32) -> bool {
    *t < *s
}

const EMPTY: Boxed = (i32::MAX, i32::MIN);

fn leaf(first: u32, num_prims: u32) -> BVHNode<()> {
    BVHNode { first, num_prims, aabb: () }
}

fn interior(first: u32) -> BVHNode<()> {
    BVHNode { first, num_prims: 0, aabb: () }
}

/// Root 0 with children 2 and 3; node 3 with children 4 and 5.
fn sample_tree() -> Vec<BVHNode<()>> {
    vec![interior(2), leaf(0, 0), leaf(0, 3), interior(4), leaf(3, 1), leaf(4, 5)]
}

#[test]
fn bvh_statistics() {
    let nodes = sample_tree();
    assert_eq!(bvh_count_leaves(&nodes, 0), 3);
    assert_eq!(bvh_count_prims(&nodes, 0), 9);
    assert_eq!(bvh_count_nodes(&nodes, 0), 5);
    assert_eq!(bvh_prims_min(&nodes, 0), 1);
    assert_eq!(bvh_prims_max(&nodes, 0), 5);
    assert_eq!(bvh_depth(&nodes, 0, 0), 2);
    assert_eq!(bvh_shallowness(&nodes, 0, 0), 1);
    assert_eq!(bvh_depth(&nodes, 3, 7), 8);
    assert_eq!(bvh_node_imbalance(&nodes, 0), Some((3, 6)));
    assert_eq!(bvh_node_imbalance(&nodes, 3), Some((1, 5)));
    assert_eq!(bvh_node_imbalance(&nodes, 2), None);
}

#[test]
fn bvh_min_and_max_imbalance() {
    let nodes = sample_tree();
    // Node 0 splits 3 : 6 (imbalance 2), node 3 splits 1 : 5 (imbalance 5).
    assert_eq!(bvh_min_imbalance(&nodes, 0), Some((3, 6)));
    assert_eq!(bvh_max_imbalance(&nodes, 0), Some((1, 5)));
    assert_eq!(bvh_min_imbalance(&nodes, 3), Some((1, 5)));
    assert_eq!(bvh_max_imbalance(&nodes, 3), Some((1, 5)));
    // A leaf has no interior node below it.
    assert_eq!(bvh_min_imbalance(&nodes, 4), None);
    assert_eq!(bvh_max_imbalance(&nodes, 4), None);
    // Ratios are compared exactly: 2 : 3 (1.5) is less imbalanced than 3 : 5 (1.66...).
    let tree = vec![
        interior(1),
        interior(3),
        interior(5),
        leaf(0, 1),
        leaf(1, 2),
        leaf(3, 2),
        leaf(5, 3),
    ];
    assert_eq!(bvh_node_imbalance(&tree, 0), Some((3, 5)));
    assert_eq!(bvh_min_imbalance(&tree, 0), Some((2, 3)));
    assert_eq!(bvh_max_imbalance(&tree, 0), Some((1, 2)));
}

fn leaf_ranges(nodes: &Vec<BVHNode<Boxed>>, i: usize, out: &mut Vec<(u32, u32)>) {
    if nodes[i].num_prims != 0 {
        out.push((nodes[i].first, nodes[i].first + nodes[i].num_prims));
    } else {
        leaf_ranges(nodes, nodes[i].first as usize, out);
        leaf_ranges(nodes, nodes[i].first as usize + 1, out);
    }
}

#[test]
fn build_bvh_splits_into_covering_leaves() {
    let prims = vec![9, 5, 1, 9, 5, 1, 9, 5];
    let (sorted, nodes) = build_bvh(prims.clone(), EMPTY, &expand, &midpoint, &goes_left).unwrap();
    assert_eq!(nodes.len(), 16);
    let mut a = sorted.clone();
    a.sort();
    let mut b = prims.clone();
    b.sort();
    assert_eq!(a, b);
    let mut ranges = Vec::new();
    leaf_ranges(&nodes, 0, &mut ranges);
    let mut next = 0;
    for (lo, hi) in ranges.iter() {
        assert_eq!(*lo, next);
        assert!(hi > lo);
        next = *hi;
    }
    assert_eq!(next, 8);
    assert_eq!(bvh_count_prims(&nodes, 0), 8);
    let leaves = bvh_count_leaves(&nodes, 0);
    assert_eq!(bvh_count_nodes(&nodes, 0), 2 * leaves - 1);
    assert_eq!(ranges.len(), 3);
    // The root box covers all primitives, and the leaves hold equal values.
    assert_eq!(nodes[0].aabb, (1, 9));
    for (lo, hi) in ranges.iter() {
        let slice = &sorted[*lo as usize..*hi as usize];
        assert!(slice.iter().all(|v| *v == slice[0]));
    }
}

#[test]
fn build_bvh_keeps_unsplittable_root_a_leaf() {
    let (prims, nodes) = build_bvh(vec![4, 4, 4], EMPTY, &expand, &midpoint, &goes_left).unwrap();
    assert_eq!(prims, vec![4, 4, 4]);
    assert_eq!(nodes[0].first, 0);
    assert_eq!(nodes[0].num_prims, 3);
    assert_eq!(nodes[0].aabb, (4, 4));
}

#[test]
fn build_bvh_single_primitive() {
    let (prims, nodes) = build_bvh(vec![42], EMPTY, &expand, &midpoint, &goes_left).unwrap();
    assert_eq!(prims, vec![42]);
    assert_eq!(nodes.len(), 2);
    assert_eq!((nodes[0].first, nodes[0].num_prims), (0, 1));
}

#[test]
fn build_bvh_runs_out_of_nodes() {
    // The root splits 1 | 2; the single-primitive leaf uses up two node slots, so
    // the second split would need nodes 6 and 7 of 6.
    let f = match build_bvh(vec![1, 2, 3], EMPTY, &expand, &midpoint, &goes_left) {
        Err(f) => f,
        Ok(_) => panic!("expected the nodes to run out"),
    };
    // Node 3 holds {2, 3}, which its split at 3 sorts into two sides.
    assert_eq!(f.error, BvhError::OutOfNodes { node: 3 });
    assert_eq!(f.next_free_index, 8);
    assert_eq!((f.nodes[3].first, f.nodes[3].num_prims), (1, 2));
    assert_eq!(f.primitives, vec![1, 2, 3]);
    assert_eq!(f.nodes.len(), 6);
    // A balanced split down to single primitives also needs more than 2 * 4 nodes.
    let f = match build_bvh(vec![1, 2, 3, 4], EMPTY, &expand, &midpoint, &goes_left) {
        Err(f) => f,
        Ok(_) => panic!("expected the nodes to run out"),
    };
    assert_eq!(f.error, BvhError::OutOfNodes { node: 3 });
    assert_eq!(f.next_free_index, 12);
}

#[test]
fn subdivide_partitions_primitives() {
    let mut nodes = vec![BVHNode { first: 0, num_prims: 0, aabb: EMPTY }; 16];
    nodes[0] = BVHNode { first: 1, num_prims: 4, aabb: EMPTY };
    let mut prims = vec![100, 8, 1, 6, 3, -100];
    let mut next_free = 1u32;
    subdivide(&mut nodes, &mut prims, 0, &mut next_free, &expand, &midpoint, &goes_left).unwrap();
    // Primitives outside 1..5 stay where they were.
    assert_eq!(prims[0], 100);
    assert_eq!(prims[5], -100);
    assert_eq!(nodes[0].num_prims, 0);
    assert_eq!(nodes[0].first, 1);
    assert_eq!(nodes[0].aabb, (1, 8));
    // Split at (1 + 8 + 1) / 2 = 5: {1, 3} go left.
    let mut l: Vec<i32> = prims[1..3].to_vec();
    l.sort();
    assert_eq!(l, vec![1, 3]);
    let mut r: Vec<i32> = prims[3..5].to_vec();
    r.sort();
    assert_eq!(r, vec![6, 8]);
    assert_eq!(bvh_count_leaves(&nodes, 0), 4);
    // Two node indices were taken for each of the 7 nodes of the subtree.
    assert_eq!(bvh_count_nodes(&nodes, 0), 7);
    assert_eq!(next_free, 1 + 2 * 7);
}

#[test]
fn build_bvh_two_primitives() {
    let (prims, nodes) = build_bvh(vec![7, 2], EMPTY, &expand, &midpoint, &goes_left).unwrap();
    assert_eq!(prims, vec![2, 7]);
    assert_eq!(nodes.len(), 4);
    assert_eq!((nodes[0].first, nodes[0].num_prims, nodes[0].aabb), (2, 0, (2, 7)));
    assert_eq!((nodes[2].first, nodes[2].num_prims), (0, 1));
    assert_eq!((nodes[3].first, nodes[3].num_prims), (1, 1));
}

#[test]
fn visit_hit_leaves_walks_hit_boxes() {
    let prims = vec![1, 1, 5, 5, 5, 9, 9, 9];
    let (_sorted, nodes) = build_bvh(prims, EMPTY, &expand, &midpoint, &goes_left).unwrap();
    // Hit every box that reaches below 6.
    let visit = visit_hit_leaves(&nodes, &|b: &Boxed| b.0 < 6);
    let mut expected = Vec::new();
    let mut checks = 0;
    let mut hits = 0;
    fn walk(nodes: &Vec<BVHNode<Boxed>>, i: usize, out: &mut Vec<usize>, checks: &mut u32, hits: &mut u32) {
        *checks += 1;
        if nodes[i].aabb.0 >= 6 {
            return;
        }
        *hits += 1;
        if nodes[i].num_prims != 0 {
            out.push(i);
        } else {
            walk(nodes, nodes[i].first as usize, out, checks, hits);
            walk(nodes, nodes[i].first as usize + 1, out, checks, hits);
        }
    }
    walk(&nodes, 0, &mut expected, &mut checks, &mut hits);
    assert_eq!(visit.leaves, expected);
    assert_eq!(visit.num_aabb_checks, checks);
    assert_eq!(visit.num_aabb_hits, hits);
    let prim_checks: u32 = expected.iter().map(|&i| nodes[i].num_prims).sum();
    assert_eq!(visit.num_primitive_checks, prim_checks);
    assert_eq!(visit.leaves.len(), 2);
    assert_eq!(visit.num_primitive_checks, 5);
    let none = visit_hit_leaves(&nodes, &|_b: &Boxed| false);
    assert!(none.leaves.is_empty());
    assert_eq!(none.num_aabb_checks, 1);
    assert_eq!(none.num_aabb_hits, 0);
}

fn node_with(first: u32, num_prims: u32, aabb: i32) -> BVHNode<i32> {
    BVHNode { first, num_prims, aabb }
}

#[test]
fn first_hit_ordered_takes_nearer_child_first() {
    // Node 0 has children 2 (distance 5) and 3 (distance 1); node 3 has children 4
    // (missed) and 5 (distance 7).
    let nodes = vec![
        node_with(2, 0, 0),
        node_with(0, 0, 0),
        node_with(0, 2, 5),
        node_with(4, 0, 1),
        node_with(2, 1, -1),
        node_with(3, 3, 7),
    ];
    let dist = |b: &i32| if *b >= 0 { Some(*b) } else { None };
    let nearer = |x: &i32, y: &i32| x < y;
    // A hit in leaf 5 is found first: the nearer child 3 is walked first.
    let in_leaf = |target: u32| move |n: &BVHNode<i32>| if n.first == target { Some(n.first) } else { None };
    let found = first_hit_ordered(&nodes, &dist, &nearer, &in_leaf(3)).unwrap();
    assert_eq!(
        (found.hit, found.num_aabb_checks, found.num_aabb_hits, found.num_primitive_checks),
        (3, 4, 3, 3)
    );
    // A hit only in leaf 2 comes after leaf 5 was tested in vain.
    let found = first_hit_ordered(&nodes, &dist, &nearer, &in_leaf(0)).unwrap();
    assert_eq!(
        (found.hit, found.num_aabb_checks, found.num_aabb_hits, found.num_primitive_checks),
        (0, 4, 3, 5)
    );
    // The missed leaf 4 is never asked.
    assert!(first_hit_ordered(&nodes, &dist, &nearer, &in_leaf(2)).is_none());
    // Where the left child is nearer, it is walked first.
    let nodes2 = vec![node_with(2, 0, 0), node_with(0, 0, 0), node_with(0, 1, 2), node_with(1, 1, 9)];
    let any = |n: &BVHNode<i32>| Some(n.first);
    let found = first_hit_ordered(&nodes2, &dist, &nearer, &any).unwrap();
    assert_eq!((found.hit, found.num_primitive_checks), (0, 1));
}

#[test]
fn build_bvh_node_boxes_bound_their_primitives() {
    let prims = vec![9, 5, 1, 9, 5, 1, 9, 5];
    let (sorted, nodes) = build_bvh(prims, EMPTY, &expand, &midpoint, &goes_left).unwrap();
    fn check(nodes: &Vec<BVHNode<Boxed>>, sorted: &Vec<i32>, i: usize) -> (u32, u32) {
        let (lo, hi) = if nodes[i].num_prims != 0 {
            (nodes[i].first, nodes[i].first + nodes[i].num_prims)
        } else {
            let (lo, _) = check(nodes, sorted, nodes[i].first as usize);
            let (_, hi) = check(nodes, sorted, nodes[i].first as usize + 1);
            (lo, hi)
        };
        let range = &sorted[lo as usize..hi as usize];
        assert_eq!(nodes[i].aabb, (*range.iter().min().unwrap(), *range.iter().max().unwrap()));
        (lo, hi)
    }
    assert_eq!(check(&nodes, &sorted, 0), (0, 8));
}

#[test]
fn subdivide_node_past_the_free_indices() {
    // Node 5 holds the single primitive; the free indices start at 2.
    let mut nodes = vec![BVHNode { first: 0, num_prims: 0, aabb: EMPTY }; 8];
    nodes[5] = BVHNode { first: 0, num_prims: 1, aabb: EMPTY };
    let mut prims = vec![7, 1, 2, 3];
    let mut next_free = 2u32;
    let r = subdivide(&mut nodes, &mut prims, 5, &mut next_free, &expand, &midpoint, &goes_left);
    assert!(r.is_ok());
    assert_eq!(next_free, 4);
    assert_eq!((nodes[5].first, nodes[5].num_prims, nodes[5].aabb), (0, 1, (7, 7)));
    assert_eq!(prims, vec![7, 1, 2, 3]);
}

#[test]
fn build_bvh_three_primitives_split_two_one() {
    // The root splits {1, 2} | {9}; node 2 then splits {1} | {2} into nodes 4 and 5,
    // all within the six nodes set aside.
    let (prims, nodes) = build_bvh(vec![1, 2, 9], EMPTY, &expand, &midpoint, &goes_left).unwrap();
    assert_eq!(prims, vec![1, 2, 9]);
    assert_eq!((nodes[0].first, nodes[0].num_prims, nodes[0].aabb), (2, 0, (1, 9)));
    assert_eq!((nodes[2].first, nodes[2].num_prims, nodes[2].aabb), (4, 0, (1, 2)));
    assert_eq!((nodes[3].first, nodes[3].num_prims, nodes[3].aabb), (2, 1, (9, 9)));
    assert_eq!((nodes[4].first, nodes[4].num_prims), (0, 1));
    assert_eq!((nodes[5].first, nodes[5].num_prims), (1, 1));
}
