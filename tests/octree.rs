use octree_arena::bounds::normalized_bounds;
use octree_arena::geometry::{octant, overlaps_region};
use octree_arena::{Aabb, Octree, OctreeCell, Point3};

fn p(x: i32, y: i32, z: i32) -> Point3 {
    Point3 { x, y, z }
}

fn bx(a: (i32, i32, i32), b: (i32, i32, i32)) -> Aabb {
    Aabb { min: p(a.0, a.1, a.2), max: p(b.0, b.1, b.2) }
}

fn children(t: &Octree, c: &OctreeCell) -> Vec<usize> {
    match c {
        OctreeCell::EmptyCell(ch) => {
            assert_eq!(ch.len(), 8);
            for &k in ch {
                assert!(k < t.cell_count());
            }
            ch.clone()
        }
        other => panic!("expected an inner cell, found {:?}", other),
    }
}

#[test]
fn it_works() {
    assert_eq!(true, true);
}

#[test]
fn two_small_boxes_make_one_filled_root() {
    let volumes = vec![bx((0, 0, 0), (1, 1, 1)), bx((5, 5, 5), (6, 6, 6))];
    let t = Octree::new(&volumes, 8);
    assert_eq!(t.min_bound(), p(0, 0, 0));
    assert_eq!(t.max_bound(), p(6, 6, 6));
    assert_eq!(t.threshold(), 8);
    assert_eq!(t.cell_count(), 1);
    assert_eq!(*t.root_cell(), OctreeCell::FilledCell(vec![0, 1]));
}

#[test]
fn ten_volumes_on_one_point_subdivide() {
    let volumes: Vec<Aabb> = (0..10).map(|_| bx((1, 1, 1), (2, 2, 2))).collect();
    let t = Octree::new(&volumes, 8);
    let ch = children(&t, t.root_cell());
    let mut filled = 0;
    for &k in &ch {
        if let OctreeCell::FilledCell(v) = t.cell(k) {
            assert!(!v.is_empty() && v.len() <= 10);
            filled += 1;
        }
    }
    assert!(filled >= 1);
    // octant 7 is the unit region [2, 2] on every axis: it cannot be split
    assert_eq!(*t.cell(ch[7]), OctreeCell::FilledCell((0..10).collect()));
}

#[test]
fn threshold_count_subdivides_once_per_level() {
    let volumes: Vec<Aabb> = (0..8).map(|_| bx((3, 3, 3), (3, 3, 3))).collect();
    let mut all = volumes.clone();
    all.push(bx((4, 4, 4), (4, 4, 4)));
    let t = Octree::new(&all, 8);
    assert_eq!(t.min_bound(), p(0, 0, 0));
    assert_eq!(t.max_bound(), p(4, 4, 4));
    // nine volumes overlap the root region [0, 4]: it splits at 2
    let root = children(&t, t.root_cell());
    for k in 0..7 {
        assert_eq!(*t.cell(root[k]), OctreeCell::EmptyChildlessCell);
    }
    // octant 7 is [3, 4] and holds all nine: it splits at 3
    let upper = children(&t, t.cell(root[7]));
    assert_eq!(*t.cell(upper[0]), OctreeCell::FilledCell((0..8).collect()));
    assert_eq!(*t.cell(upper[7]), OctreeCell::FilledCell(vec![8]));
    for k in 1..7 {
        assert_eq!(*t.cell(upper[k]), OctreeCell::EmptyChildlessCell);
    }
}

#[test]
fn threshold_volumes_on_a_unit_region_split_once() {
    let volumes: Vec<Aabb> = (0..8).map(|_| bx((2, 2, 2), (2, 2, 2))).collect();
    let t = Octree::new(&volumes, 8);
    assert_eq!(t.max_bound(), p(2, 2, 2));
    let root = children(&t, t.root_cell());
    // the upper octant is the unit region at 2: it keeps all eight volumes
    assert_eq!(*t.cell(root[7]), OctreeCell::FilledCell((0..8).collect()));
    for k in 0..7 {
        assert_eq!(*t.cell(root[k]), OctreeCell::EmptyChildlessCell);
    }
    assert_eq!(t.cell_count(), 9);
}

#[test]
fn count_one_below_threshold_stays_filled() {
    let volumes: Vec<Aabb> = (0..7).map(|_| bx((3, 3, 3), (3, 3, 3))).collect();
    let t = Octree::new(&volumes, 8);
    assert_eq!(*t.root_cell(), OctreeCell::FilledCell((0..7).collect()));
    let t = Octree::new(&volumes, 7);
    assert!(matches!(t.root_cell(), OctreeCell::EmptyCell(_)));
}

#[test]
fn zero_span_is_refused() {
    let flat = vec![bx((0, 0, 0), (0, 0, 0))];
    assert!(Octree::try_new(&flat, 8).is_none());
    let flat_z = vec![bx((0, 0, 0), (2, 2, 0))];
    assert!(Octree::try_new(&flat_z, 8).is_none());
    let ok = vec![bx((0, 0, 0), (2, 2, 1))];
    let t = Octree::try_new(&ok, 8).unwrap();
    assert_eq!(t.max_bound(), p(2, 2, 2));
}

#[test]
fn rebuilding_gives_the_same_tree() {
    let volumes: Vec<Aabb> =
        (0..20).map(|i| bx((i % 5, i % 3, i % 7), (i % 5 + 2, i % 3 + 1, i % 7 + 3))).collect();
    let a = Octree::new(&volumes, 3);
    let b = Octree::new(&volumes, 3);
    assert_eq!(a.cell_count(), b.cell_count());
    assert_eq!(a.root_index(), b.root_index());
    for i in 0..a.cell_count() {
        assert_eq!(a.cell(i), b.cell(i));
    }
}

fn check_leaves(t: &Octree, i: usize, lo: Point3, hi: Point3, volumes: &[Aabb], threshold: usize) {
    let expected: Vec<usize> =
        (0..volumes.len()).filter(|&j| overlaps_region(lo, hi, &volumes[j])).collect();
    match t.cell(i) {
        OctreeCell::FilledCell(v) => {
            assert_eq!(*v, expected);
            assert!(!v.is_empty());
        }
        OctreeCell::EmptyChildlessCell => assert!(expected.is_empty()),
        OctreeCell::EmptyCell(ch) => {
            assert!(expected.len() >= threshold);
            for k in 0..8 {
                let (a, b) = octant(lo, hi, k);
                check_leaves(t, ch[k], a, b, volumes, threshold);
            }
        }
    }
}

#[test]
fn every_leaf_lists_the_volumes_it_overlaps() {
    let volumes = vec![
        bx((-7, -3, 1), (5, 2, 9)),
        bx((0, 0, 0), (1, 1, 1)),
        bx((2, 2, 2), (3, 3, 3)),
        bx((-5, 4, -2), (-1, 8, 0)),
        bx((6, -6, 3), (9, -2, 4)),
        bx((1, 1, 1), (1, 1, 1)),
    ];
    let t = Octree::new(&volumes, 2);
    assert_eq!(t.min_bound(), p(-8, -6, -2));
    assert_eq!(t.max_bound(), p(10, 8, 10));
    check_leaves(&t, t.root_index(), t.min_bound(), t.max_bound(), &volumes, 2);
}

#[test]
fn octants_tile_the_region() {
    let lo = p(-3, 0, 4);
    let hi = p(2, 3, 9);
    for x in lo.x..=hi.x {
        for y in lo.y..=hi.y {
            for z in lo.z..=hi.z {
                let mut hits = 0;
                for i in 0..8 {
                    let (a, b) = octant(lo, hi, i);
                    if a.x <= x && x <= b.x && a.y <= y && y <= b.y && a.z <= z && z <= b.z {
                        hits += 1;
                    }
                }
                assert_eq!(hits, 1);
            }
        }
    }
    assert_eq!(octant(lo, hi, 0), (p(-3, 0, 4), p(-1, 1, 6)));
    assert_eq!(octant(lo, hi, 7), (p(0, 2, 7), p(2, 3, 9)));
}

#[test]
fn bounds_are_seeded_from_origin_and_rounded_to_even() {
    let (lo, hi) = normalized_bounds(&vec![bx((3, 3, 3), (5, 5, 5))]);
    assert_eq!(lo, p(0, 0, 0));
    assert_eq!(hi, p(6, 6, 6));
    let (lo, hi) = normalized_bounds(&vec![bx((-3, -1, -5), (-1, -1, -1))]);
    assert_eq!(lo, p(-4, -2, -6));
    assert_eq!(hi, p(0, 0, 0));
    let (lo, hi) = normalized_bounds(&vec![]);
    assert_eq!((lo, hi), (p(0, 0, 0), p(0, 0, 0)));
}

#[test]
fn overlap_is_closed_on_every_axis() {
    let b = bx((2, 2, 2), (4, 4, 4));
    assert!(overlaps_region(p(4, 4, 4), p(6, 6, 6), &b));
    assert!(overlaps_region(p(0, 0, 0), p(2, 2, 2), &b));
    assert!(!overlaps_region(p(5, 0, 0), p(6, 6, 6), &b));
    assert!(!overlaps_region(p(0, 0, 0), p(6, 6, 1), &b));
}
