use rand::Rng;
use zorder_index::morton::{morton_2, morton_4, ordered_float};
use zorder_index::indexer::ZOrderIndexer;
use zorder_index::store::QuadTree;

fn encode_point(p: (f32, f32)) -> (u32, u32) {
    (ordered_float(p.0.to_bits()), ordered_float(p.1.to_bits()))
}

fn generate_random_points(num_points: usize, size: f32) -> Vec<(f32, f32)> {
    let mut rng = rand::thread_rng();
    (0..num_points)
        .map(|_| (rng.gen_range(0.0..size), rng.gen_range(0.0..size)))
        .collect()
}

fn collect_range(tree: &QuadTree, min: (u32, u32), max: (u32, u32)) -> Vec<(u32, u32)> {
    let mut scan = tree.query(min, max);
    let mut out = Vec::new();
    while let Some(p) = scan.next(tree) {
        out.push(p);
    }
    out
}

#[test]
fn test_range_scan_small_grid() {
    let mut tree = QuadTree::new();
    for p in [(0, 0), (0, 1), (1, 0), (1, 1), (2, 2), (3, 3)] {
        tree.insert(p);
    }
    let mut points = collect_range(&tree, (0, 0), (1, 1));
    points.sort();
    assert_eq!(points, vec![(0, 0), (0, 1), (1, 0), (1, 1)]);
}

#[test]
fn test_range_scan_ascending_keys() {
    let mut tree = QuadTree::new();
    for x in 0..8 {
        for y in 0..8 {
            tree.insert((x, y));
        }
    }
    let points = collect_range(&tree, (1, 2), (5, 6));
    // every emitted point is in the rectangle, in ascending Morton order.
    assert_eq!(points.len(), 5 * 5);
    for w in points.windows(2) {
        assert!(morton_2(w[0].0, w[0].1) < morton_2(w[1].0, w[1].1));
    }
    for p in points {
        assert!(1 <= p.0 && p.0 <= 5 && 2 <= p.1 && p.1 <= 6);
    }
}

#[test]
fn test_insert_same_point_twice() {
    let mut tree = QuadTree::new();
    tree.insert((7, 9));
    tree.insert((7, 9));
    assert_eq!(tree.len(), 1);
    assert_eq!(collect_range(&tree, (7, 9), (7, 9)), vec![(7, 9)]);
}

#[test]
fn range_query_matches_brute_force() {
    let mut rng = rand::thread_rng();
    for _ in 0..100 {
        let points = generate_random_points(100, 1e2);
        let mut tree = QuadTree::new();
        for &p in &points {
            tree.insert(encode_point(p));
        }
        let a: (f32, f32) = (rng.gen_range(0.0..1e2), rng.gen_range(0.0..1e2));
        let b: (f32, f32) = (rng.gen_range(0.0..1e2), rng.gen_range(0.0..1e2));
        let min = (a.0.min(b.0), a.1.min(b.1));
        let max = (a.0.max(b.0), a.1.max(b.1));

        let mut brute: Vec<(u32, u32)> = points
            .iter()
            .filter(|p| min.0 <= p.0 && p.0 <= max.0 && min.1 <= p.1 && p.1 <= max.1)
            .map(|&p| encode_point(p))
            .collect();
        brute.sort();
        brute.dedup();

        let mut scanned = collect_range(&tree, encode_point(min), encode_point(max));
        scanned.sort();
        assert_eq!(brute, scanned);
    }
}

#[test]
fn test_count_neighbors_correctness() {
    let mut rng = rand::thread_rng();
    for _ in 0..10 {
        let num_points = 100;
        let distance: f32 = rng.gen_range(1e-1..5e1);

        // Generate random points
        let points = generate_random_points(num_points, 1e2);

        // Brute force count neighbors
        let mut brute_force_counts = Vec::new();
        for i in 0..num_points {
            let (cx, cy) = points[i];
            let mut count = 0;
            for p in &points {
                if p.0 >= cx - distance
                    && p.0 <= cx + distance
                    && p.1 >= cy - distance
                    && p.1 <= cy + distance
                {
                    count += 1;
                }
            }
            brute_force_counts.push(count);
        }

        // Count neighbors using the index
        let quadtree_counts = {
            let mut quadtree = QuadTree::new();
            for point in &points {
                quadtree.insert(encode_point(*point));
            }
            let mut counts = Vec::with_capacity(points.len());
            for point in &points {
                let min = encode_point((point.0 - distance, point.1 - distance));
                let max = encode_point((point.0 + distance, point.1 + distance));
                counts.push(collect_range(&quadtree, min, max).len());
            }

            counts
        };

        // Check that both methods return the same result
        assert_eq!(brute_force_counts, quadtree_counts);
    }
}

#[test]
fn test_4d_range_query() {
    type Point4D = (i32, i32, i32, i32);
    let mut rng = rand::thread_rng();
    for _ in 0..100 {
        let num_points = 1000;
        let bounds = 0..100;
        let points: Vec<Point4D> = (0..num_points)
            .map(|_| {
                (
                    rng.gen_range(bounds.clone()),
                    rng.gen_range(bounds.clone()),
                    rng.gen_range(bounds.clone()),
                    rng.gen_range(bounds.clone()),
                )
            })
            .collect();

        // Generate a random 4D range
        let mut gen_range = || {
            let from = rng.gen_range(bounds.clone());
            let length = rng.gen_range(bounds.clone());
            from..(from + length + 1)
        };
        let x_range = gen_range();
        let y_range = gen_range();
        let z_range = gen_range();
        let w_range = gen_range();

        // Perform a brute-force search
        let brute_force_results: Vec<Point4D> = points
            .iter()
            .filter(|&&p| {
                x_range.contains(&p.0)
                    && y_range.contains(&p.1)
                    && z_range.contains(&p.2)
                    && w_range.contains(&p.3)
            })
            .cloned()
            .collect();

        let mkm = |p: &Point4D| morton_4(p.0 as u16, p.1 as u16, p.2 as u16, p.3 as u16);
        let mut tree = points.clone();
        tree.sort_by_key(mkm);
        let tree = tree;

        let min = morton_4(
            x_range.start as u16,
            y_range.start as u16,
            z_range.start as u16,
            w_range.start as u16,
        );
        let max = morton_4(
            x_range.end as u16 - 1,
            y_range.end as u16 - 1,
            z_range.end as u16 - 1,
            w_range.end as u16 - 1,
        );
        let zi = ZOrderIndexer::<4>::from_morton(min, max);

        let end_idx = tree.partition_point(|p| mkm(p) <= max);
        let mut results = Vec::new();
        let mut i = 0;
        while i < end_idx {
            let p = &tree[i];
            i += 1;
            let z = mkm(p);
            if !zi.contains(z) {
                let Some(z) = zi.next_zorder_index(z) else {
                    break;
                };
                i += tree[i..end_idx].partition_point(|p| mkm(p) < z);
            } else {
                results.push(p);
            }
        }

        assert_eq!(brute_force_results.len(), results.len());
    }
}
