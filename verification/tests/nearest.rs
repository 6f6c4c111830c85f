use rand::Rng;
use zorder_index::morton::{ordered_float, ordered_float_reverse};
use zorder_index::nearest::cheb_dist;
use zorder_index::store::QuadTree;

fn encode_point(p: (f32, f32)) -> (u32, u32) {
    (ordered_float(p.0.to_bits()), ordered_float(p.1.to_bits()))
}

fn decode_point(p: (u32, u32)) -> (f32, f32) {
    (
        f32::from_bits(ordered_float_reverse(p.0)),
        f32::from_bits(ordered_float_reverse(p.1)),
    )
}

fn generate_random_points(num_points: usize, size: f32) -> Vec<(f32, f32)> {
    let mut rng = rand::thread_rng();
    (0..num_points)
        .map(|_| (rng.gen_range(0.0..size), rng.gen_range(0.0..size)))
        .collect()
}

#[test]
fn test_nearest_exact_match() {
    let mut tree = QuadTree::new();
    tree.insert((0, 0));
    let mut nn = tree.nearest((0, 0));
    assert_eq!(nn.next(&tree), Some((0, 0)));
    assert_eq!(nn.next(&tree), None);
}

#[test]
fn test_nearest_ordering() {
    let mut tree = QuadTree::new();
    for p in [(10, 10), (0, 0), (5, 5), (20, 20)] {
        tree.insert(p);
    }
    let q = (6, 6);
    let mut nn = tree.nearest(q);
    let mut dists = Vec::new();
    while let Some(p) = nn.next(&tree) {
        dists.push(cheb_dist(p, q));
    }
    assert_eq!(dists, vec![1, 4, 6, 14]);
}

#[test]
fn test_nearest_near_origin() {
    // shells are clipped at the lane domain's edges; candidates near the
    // origin must still come out once, in distance order.
    let mut tree = QuadTree::new();
    for p in [(0, 0), (0, 3), (2, 0), (1, 1), (4, 4)] {
        tree.insert(p);
    }
    let q = (0, 0);
    let mut nn = tree.nearest(q);
    let mut seen = Vec::new();
    let mut last = 0;
    while let Some(p) = nn.next(&tree) {
        let d = cheb_dist(p, q);
        assert!(d >= last);
        last = d;
        seen.push(p);
    }
    seen.sort();
    assert_eq!(seen, vec![(0, 0), (0, 3), (1, 1), (2, 0), (4, 4)]);
}

#[test]
fn nns() {
    let mut rng = rand::thread_rng();
    for _ in 0..100 {
        let num_points = rng.gen_range(100..1000);

        let mut tree = kdtree::KdTree::new(2);
        let mut quad = QuadTree::new();
        let points = generate_random_points(num_points, 1e2);
        for p in points {
            quad.insert(encode_point(p));
            tree.add([p.0, p.1], p).unwrap();
        }
        fn square_dist(a: &[f32], b: &[f32]) -> f32 {
            let mut r: u32 = 0;
            for i in 0..a.len().min(b.len()) {
                r = r.max(u32::abs_diff(
                    ordered_float(a[i].to_bits()),
                    ordered_float(b[i].to_bits()),
                ));
            }
            r as f32
        }
        let a = tree.nearest(&[50.0, 50.0], 100, &square_dist).unwrap();
        let a: Vec<_> = a.into_iter().map(|t| *t.1).collect();
        let b: Vec<_> = {
            let mut nn = quad.nearest(encode_point((50.0, 50.0)));
            let mut out = Vec::new();
            while out.len() < 100 {
                let Some(p) = nn.next(&quad) else { break };
                out.push(decode_point(p));
            }
            out
        };
        // the reference tree orders by the f32-rounded distance and breaks
        // ties by its own heap order; the index orders by the exact distance
        // (a refinement) and breaks ties by Morton key. So compare the
        // distance sequences at the reference's precision and the points up
        // to order within one distance; the group at the cut-off distance
        // may keep different members. Non-negative floats compare by their
        // bit patterns.
        let dist_of = |p: &(f32, f32)| square_dist(&[50.0, 50.0], &[p.0, p.1]).to_bits();
        let da: Vec<u32> = a.iter().map(dist_of).collect();
        let db: Vec<u32> = b.iter().map(dist_of).collect();
        assert_eq!(da, db);
        let cut = *da.last().unwrap();
        let mut ka: Vec<(u32, u32, u32)> = a
            .iter()
            .filter(|p| dist_of(p) < cut)
            .map(|p| (dist_of(p), p.0.to_bits(), p.1.to_bits()))
            .collect();
        let mut kb: Vec<(u32, u32, u32)> = b
            .iter()
            .filter(|p| dist_of(p) < cut)
            .map(|p| (dist_of(p), p.0.to_bits(), p.1.to_bits()))
            .collect();
        ka.sort();
        kb.sort();
        assert_eq!(ka, kb);
    }
}
