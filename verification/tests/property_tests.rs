use roaring::RoaringBitmap;

#[test]
fn scenario_full_low_range() {
    let mut rb = RoaringBitmap::new();
    let mut x: u32 = 0;
    while x <= 65536 {
        rb.add(x);
        x += 1;
    }
    assert_eq!(65537, rb.cardinality());
    assert_eq!(Some(65536), rb.maximum());
    assert_eq!(Some(0), rb.minimum());
}

#[test]
fn scenario_two_containers() {
    let mut rb = RoaringBitmap::new();
    assert!(rb.add(10));
    assert!(rb.add(70000));
    assert!(!rb.add(70000));
    assert_eq!(2, rb.cardinality());
    assert!(rb.remove(10));
    assert!(rb.remove(70000));
    assert!(!rb.remove(70000));
    assert_eq!(0, rb.cardinality());
}

#[test]
fn scenario_small_algebra() {
    let a = RoaringBitmap::from_range(0, 8);
    let b = RoaringBitmap::from_iter(&vec![1, 2, 3]);

    assert_eq!(vec![1, 2, 3], a.intersection(&b).to_array());
    assert_eq!(vec![0, 4, 5, 6, 7], a.difference(&b).to_array());
    assert_eq!(vec![0, 4, 5, 6, 7], a.symmetric_difference(&b).to_array());
    assert!(b.is_subset(&a));
    assert!(!a.is_subset(&b));
}

#[test]
fn scenario_wide_symmetric_difference() {
    let a = RoaringBitmap::from_range(0, 131072);
    let b = RoaringBitmap::from_range(1, 131071);
    let s = a.symmetric_difference(&b);
    assert_eq!(vec![0, 131071], s.to_array());
    assert_eq!(2, s.cardinality());
}

#[test]
fn scenario_select_wide() {
    let rb = RoaringBitmap::from_range(1, 131072);
    assert_eq!(Some(1), rb.select(0));
    assert_eq!(Some(2), rb.select(1));
    assert_eq!(Some(70001), rb.select(70000));
    assert_eq!(None, rb.select(131071));
}

#[test]
fn scenario_rank_wide() {
    // Rank counts the elements that do not exceed the argument.
    let rb = RoaringBitmap::from_range(0, 131072);
    assert_eq!(9, rb.rank(8));
    assert_eq!(2, rb.rank(1));
    assert_eq!(6, rb.rank(5));
    assert_eq!(70001, rb.rank(70000));
}

#[test]
fn contains_matches_to_array() {
    let rb = RoaringBitmap::from_iter(&vec![3, 70000, 131071, 9]);
    let arr = rb.to_array();
    assert_eq!(vec![3, 9, 70000, 131071], arr);
    for v in [3u32, 9, 70000, 131071] {
        assert!(rb.contains(v));
        assert!(arr.contains(&v));
    }
    assert!(!rb.contains(4));
    assert!(!arr.contains(&4));
}

#[test]
fn cardinality_matches_to_array_len() {
    let rb = RoaringBitmap::from_iter(&vec![5, 5, 7, 70000]);
    assert_eq!(rb.cardinality() as usize, rb.to_array().len());
    assert_eq!(3, rb.cardinality());
}

#[test]
fn add_is_idempotent() {
    let mut rb = RoaringBitmap::from_range(0, 100);
    assert!(rb.add(200));
    let before = rb.to_array();
    let card = rb.cardinality();
    assert!(!rb.add(200));
    assert_eq!(card, rb.cardinality());
    assert_eq!(before, rb.to_array());
}

#[test]
fn remove_after_add_restores() {
    let mut rb = RoaringBitmap::from_range(0, 100);
    let before = rb.to_array();
    assert!(rb.add(70000));
    assert!(rb.remove(70000));
    assert_eq!(before, rb.to_array());
}

#[test]
fn to_array_is_strictly_ascending() {
    let rb = RoaringBitmap::from_iter(&vec![9, 1, 70000, 0, 65535, 65536]);
    let arr = rb.to_array();
    for w in arr.windows(2) {
        assert!(w[0] < w[1]);
    }
    assert_eq!(vec![0, 1, 9, 65535, 65536, 70000], arr);
}

#[test]
fn subset_characterization() {
    let a = RoaringBitmap::from_range(2, 7);
    let b = RoaringBitmap::from_range(0, 8);
    assert!(a.is_subset(&b));
    assert_eq!(b.to_array(), a.union(&b).to_array());
    assert_eq!(a.to_array(), a.intersection(&b).to_array());

    let c = RoaringBitmap::from_range(5, 9);
    assert!(!c.is_subset(&b));
    assert_ne!(b.to_array(), c.union(&b).to_array());
    assert_ne!(c.to_array(), c.intersection(&b).to_array());
}

#[test]
fn intersects_iff_intersection_nonempty() {
    let a = RoaringBitmap::from_range(0, 8);
    let b = RoaringBitmap::from_range(5, 12);
    let c = RoaringBitmap::from_range(9, 12);
    assert!(a.intersects(&b));
    assert!(a.intersection(&b).cardinality() > 0);
    assert!(!a.intersects(&c));
    assert_eq!(0, a.intersection(&c).cardinality());
}

#[test]
fn minimum_maximum_match_to_array_ends() {
    let rb = RoaringBitmap::from_iter(&vec![42, 7, 131071]);
    let arr = rb.to_array();
    assert_eq!(Some(arr[0]), rb.minimum());
    assert_eq!(Some(arr[arr.len() - 1]), rb.maximum());
}

#[test]
fn boundary_values() {
    let mut rb = RoaringBitmap::new();
    assert!(rb.add(0));
    assert!(rb.add(0xFFFF));
    assert!(rb.add(0x10000));
    assert!(rb.add(0xFFFFFFFF));
    assert_eq!(4, rb.cardinality());
    assert!(rb.contains(0) && rb.contains(0xFFFF));
    assert!(rb.contains(0x10000) && rb.contains(0xFFFFFFFF));
    assert_eq!(vec![0, 0xFFFF, 0x10000, 0xFFFFFFFF], rb.to_array());
    assert_eq!(Some(0), rb.minimum());
    assert_eq!(Some(0xFFFFFFFF), rb.maximum());
    assert_eq!(Some(0x10000), rb.select(2));
    assert_eq!(None, rb.select(4));
    assert_eq!(4, rb.rank(0xFFFFFFFF));
    assert_eq!(3, rb.rank(0x10000));
}

#[test]
fn empty_bitmap_behavior() {
    let rb = RoaringBitmap::new();
    assert_eq!(0, rb.cardinality());
    assert_eq!(None, rb.minimum());
    assert_eq!(None, rb.maximum());
    assert_eq!(None, rb.select(0));
    assert_eq!(0, rb.rank(0));
    assert_eq!(0, rb.rank(0xFFFFFFFF));
    assert!(rb.to_array().is_empty());
    assert!(!rb.contains(0));
    let mut it = rb.iter();
    assert_eq!(None, it.next());
}

#[test]
fn representation_threshold() {
    // Exactly at the promotion boundary on one side, below it on the other.
    let sparse = RoaringBitmap::from_range(0, 4095);
    let dense = RoaringBitmap::from_range(0, 4096);
    assert_eq!(4095, sparse.cardinality());
    assert_eq!(4096, dense.cardinality());
    assert!(sparse.is_subset(&dense));
    assert_eq!(Some(4095), dense.maximum());

    let (arrays, bitmaps, _) = sparse.stats();
    assert_eq!((1, 0), (arrays, bitmaps));
    let (arrays, bitmaps, bytes) = dense.stats();
    assert_eq!((0, 1), (arrays, bitmaps));
    assert_eq!(2 + 8192, bytes);
}

#[test]
fn representation_invariance() {
    // The same set reached through a sparse container and through a dense
    // detour enumerates identically.
    let direct = RoaringBitmap::from_range(0, 10);
    let wide = RoaringBitmap::from_range(0, 5000);
    let tail = RoaringBitmap::from_range(10, 5000);
    let via_dense = wide.difference(&tail);
    assert_eq!(direct.to_array(), via_dense.to_array());
    assert_eq!(direct.cardinality(), via_dense.cardinality());
    assert!(direct.is_subset(&via_dense) && via_dense.is_subset(&direct));
    assert_eq!(direct.rank(5), via_dense.rank(5));
    assert_eq!(direct.select(3), via_dense.select(3));
}

#[test]
fn remove_range_across_keys() {
    let mut rb = RoaringBitmap::from_range(65530, 65550);
    rb.remove_range(65533, 65543);
    assert_eq!(10, rb.cardinality());
    assert!(rb.contains(65530) && rb.contains(65532));
    assert!(!rb.contains(65533) && !rb.contains(65536) && !rb.contains(65542));
    assert!(rb.contains(65543) && rb.contains(65549));

    let mut rb = RoaringBitmap::from_range(0, 17);
    rb.remove_range(10, 16);
    assert_eq!(11, rb.cardinality());
    assert!(rb.contains(9) && !rb.contains(10) && !rb.contains(15) && rb.contains(16));

    let mut rb = RoaringBitmap::from_range(0, 4);
    rb.remove_range(3, 3);
    assert_eq!(4, rb.cardinality());
}

#[test]
fn iterator_yields_in_order() {
    let rb = RoaringBitmap::from_iter(&vec![70000, 1, 3]);
    let mut it = rb.iter();
    assert_eq!(Some(1), it.next());
    assert_eq!(Some(3), it.next());
    assert_eq!(Some(70000), it.next());
    assert_eq!(None, it.next());
    assert_eq!(None, it.next());
}

#[test]
fn container_constructors() {
    let a = roaring::ArrayContainer::new();
    let b = roaring::BitmapContainer::new();
    let filled = roaring::BitmapContainer::from_iter(&vec![1u16, 5, 5, 9]);
    let _ = (a, b, filled);

    let words: Vec<u64> = vec![0u64; 1024];
    let mut it = roaring::BitmapIterator::new(&words);
    assert_eq!(None, it.next());

    let rb = RoaringBitmap::from_range(3, 6);
    let mut it = roaring::RoaringBitmapIter::new(&rb);
    assert_eq!(Some(3), it.next());
    assert_eq!(Some(4), it.next());
    assert_eq!(Some(5), it.next());
    assert_eq!(None, it.next());
}

#[test]
fn result_representation_follows_threshold() {
    // Set-operation results are re-selected: dense exactly at 4,096 elements.
    let a = RoaringBitmap::from_range(0, 10000);
    let b = RoaringBitmap::from_range(0, 5000);

    let inter = a.intersection(&b);
    assert_eq!(5000, inter.cardinality());
    assert_eq!((0, 1), { let (ar, bm, _) = inter.stats(); (ar, bm) });

    let small = a.intersection(&RoaringBitmap::from_range(0, 100));
    assert_eq!((1, 0), { let (ar, bm, _) = small.stats(); (ar, bm) });

    let diff = a.difference(&b);
    assert_eq!(5000, diff.cardinality());
    assert_eq!((0, 1), { let (ar, bm, _) = diff.stats(); (ar, bm) });

    let sym = a.symmetric_difference(&b);
    assert_eq!(5000, sym.cardinality());
    assert_eq!((0, 1), { let (ar, bm, _) = sym.stats(); (ar, bm) });

    let u = RoaringBitmap::from_range(0, 3000).union(&RoaringBitmap::from_range(3000, 6000));
    assert_eq!(6000, u.cardinality());
    assert_eq!((0, 1), { let (ar, bm, _) = u.stats(); (ar, bm) });

    let u_small = RoaringBitmap::from_range(0, 10).union(&RoaringBitmap::from_range(5, 20));
    assert_eq!((1, 0), { let (ar, bm, _) = u_small.stats(); (ar, bm) });
}

#[test]
fn stats_counts_mixed_containers() {
    let mut rb = RoaringBitmap::from_range(0, 5000);
    rb.add(70000);
    rb.add(70001);
    let (arrays, bitmaps, bytes) = rb.stats();
    assert_eq!(1, arrays);
    assert_eq!(1, bitmaps);
    assert_eq!(2 * 2 + 8192 + 2 * 2, bytes);
}
