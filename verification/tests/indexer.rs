use zorder_index::indexer::ZOrderIndexer;
use zorder_index::morton::morton_2;

#[test]
fn test_indexer() {
    let zi = ZOrderIndexer::<2>::from_morton(0, 6);
    for i in 0..4 {
        assert!(zi.contains(i));
    }
    assert!(zi.contains(4));
    assert!(!zi.contains(5));
    assert!(zi.contains(6));
    assert!(!zi.contains(7));

    assert_eq!(zi.next_zorder_index(0), Some(1));
    assert_eq!(zi.next_zorder_index(1), Some(2));
    assert_eq!(zi.next_zorder_index(2), Some(3));
    assert_eq!(zi.next_zorder_index(3), Some(4));
    assert_eq!(zi.next_zorder_index(4), Some(6));
    assert_eq!(zi.next_zorder_index(5), Some(6));
    assert_eq!(zi.next_zorder_index(6), None);
}

#[test]
fn test_indexer_from_coordinates() {
    // the 2x3 tile of test_indexer, built from its corner coordinates.
    let zi = ZOrderIndexer::<2>::new((0, 0), (1, 2));
    let (lo, hi) = *zi.bounds();
    assert_eq!(lo, 0);
    assert_eq!(hi, 6);
    assert_eq!(morton_2(1, 2), 6);
}

#[test]
fn test_enumerate_keys() {
    // successor walks from the lower corner enumerate the rectangle in
    // ascending key order, skipping keys outside it.
    let zi = ZOrderIndexer::<2>::from_morton(0, 6);
    assert_eq!(zi.enumerate_keys(), vec![0, 1, 2, 3, 4, 6]);

    let zi = ZOrderIndexer::<2>::new((2, 1), (3, 2));
    let keys = zi.enumerate_keys();
    for w in keys.windows(2) {
        assert!(w[0] < w[1]);
    }
    for &k in keys.iter() {
        assert!(zi.contains(k));
    }
    // the rectangle holds 2 * 2 coordinate pairs.
    assert_eq!(keys.len(), 4);
}

#[test]
fn test_indexer_4d() {
    let zi = ZOrderIndexer::<4>::new(((0, 0), (0, 0)), ((1, 1), (1, 1)));
    let (lo, hi) = *zi.bounds();
    assert_eq!(lo, 0);
    assert_eq!(hi, 15);
    // the full 2^4 block is contiguous in Morton order.
    for z in 0..16 {
        assert!(zi.contains(z));
    }
    assert!(!zi.contains(16));
    assert_eq!(zi.next_zorder_index(3), Some(4));
    assert_eq!(zi.next_zorder_index(15), None);

    // a 4-d rectangle with gaps on the curve.
    let zi = ZOrderIndexer::<4>::new(((1, 0), (0, 0)), ((1, 1), (0, 1)));
    let keys = zi.enumerate_keys();
    assert_eq!(keys.len(), 4);
    for &k in keys.iter() {
        assert!(zi.contains(k));
    }
    let mut cur = zi.bounds().0;
    assert!(zi.contains(cur));
    for &k in keys.iter().skip(1) {
        let next = zi.next_zorder_index(cur).unwrap();
        assert_eq!(next, k);
        cur = next;
    }
    assert_eq!(zi.next_zorder_index(cur), None);
}
