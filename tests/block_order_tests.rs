use spritezip::block_order::{block_order_coordinates, BlockXYIterator};
use std::collections::HashSet;

fn collect(b: usize, w: usize, h: usize) -> Vec<(u32, u32)> {
    let mut it = BlockXYIterator::new(b, (w, h));
    let mut v = Vec::new();
    while let Some(p) = it.next() {
        v.push(p);
    }
    v
}

#[test]
fn edge_tiles_127_by_53() {
    let v = block_order_coordinates(50, (127, 53));
    assert_eq!(v.len(), 127 * 53);
    assert_eq!(v.len(), 6731);
    // The first tile is 50×50, row by row.
    for (k, p) in v[..2500].iter().enumerate() {
        assert_eq!(*p, ((k % 50) as u32, (k / 50) as u32));
    }
    // The third tile of the first row is cut to x in 100..=126.
    let third: Vec<(u32, u32)> = v[5000..5000 + 27 * 50].to_vec();
    for (k, p) in third.iter().enumerate() {
        assert_eq!(*p, (100 + (k % 27) as u32, (k / 27) as u32));
    }
    // The second row of tiles is cut to y in 50..=52.
    for p in &v[5000 + 27 * 50..] {
        assert!(p.1 >= 50 && p.1 <= 52);
    }
    assert_eq!(v[5000 + 27 * 50], (0, 50));
    assert_eq!(*v.last().unwrap(), (126, 52));
}

#[test]
fn every_position_exactly_once() {
    for (b, w, h) in [(1, 3, 5), (2, 3, 5), (50, 127, 53), (7, 7, 7), (3, 10, 1), (4, 1, 9)] {
        let v = collect(b, w, h);
        assert_eq!(v.len(), w * h);
        let set: HashSet<(u32, u32)> = v.iter().cloned().collect();
        assert_eq!(set.len(), w * h);
        for p in &v {
            assert!((p.0 as usize) < w && (p.1 as usize) < h);
        }
    }
}

#[test]
fn empty_raster_gives_nothing() {
    assert!(collect(50, 0, 0).is_empty());
    assert!(collect(50, 0, 10).is_empty());
    assert!(collect(50, 10, 0).is_empty());
    assert!(block_order_coordinates(1, (0, 5)).is_empty());
}

#[test]
fn small_tiles_order() {
    assert_eq!(
        collect(2, 3, 3),
        vec![(0, 0), (1, 0), (0, 1), (1, 1), (2, 0), (2, 1), (0, 2), (1, 2), (2, 2)]
    );
}

#[test]
fn two_traversals_agree() {
    assert_eq!(collect(50, 127, 53), collect(50, 127, 53));
    assert_eq!(block_order_coordinates(3, (11, 4)), collect(3, 11, 4));
}

#[test]
fn iterator_stays_done() {
    let mut it = BlockXYIterator::new(2, (1, 1));
    assert_eq!(it.next(), Some((0, 0)));
    assert_eq!(it.next(), None);
    assert_eq!(it.next(), None);
}
