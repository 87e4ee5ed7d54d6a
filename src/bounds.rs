//! The overall bounding region of a volume set, rounded out to even corners.
use vstd::prelude::*;
use crate::geometry::{Aabb, Point3, coord};

verus! {

/// Smallest coordinate on axis `a` over all minimum corners, seeded from zero.
pub open spec fn low_fold(boxes: Seq<Aabb>, a: int) -> int
    decreases boxes.len(),
{
    if boxes.len() == 0 {
        0
    } else {
        let rest = low_fold(boxes.drop_last(), a);
        let c = coord(boxes.last().min, a);
        if c < rest {
            c
        } else {
            rest
        }
    }
}

/// Largest coordinate on axis `a` over all maximum corners, seeded from zero.
pub open spec fn high_fold(boxes: Seq<Aabb>, a: int) -> int
    decreases boxes.len(),
{
    if boxes.len() == 0 {
        0
    } else {
        let rest = high_fold(boxes.drop_last(), a);
        let c = coord(boxes.last().max, a);
        if c > rest {
            c
        } else {
            rest
        }
    }
}

/// `v` moved down to the nearest even value.
pub open spec fn round_down_even(v: int) -> int {
    if v % 2 != 0 {
        v - 1
    } else {
        v
    }
}

/// `v` moved up to the nearest even value.
pub open spec fn round_up_even(v: int) -> int {
    if v % 2 != 0 {
        v + 1
    } else {
        v
    }
}

/// Minimum corner of the normalized bounding region.
pub open spec fn normalized_min(boxes: Seq<Aabb>) -> Point3 {
    Point3 {
        x: round_down_even(low_fold(boxes, 0)) as i32,
        y: round_down_even(low_fold(boxes, 1)) as i32,
        z: round_down_even(low_fold(boxes, 2)) as i32,
    }
}

/// Maximum corner of the normalized bounding region.
pub open spec fn normalized_max(boxes: Seq<Aabb>) -> Point3 {
    Point3 {
        x: round_up_even(high_fold(boxes, 0)) as i32,
        y: round_up_even(high_fold(boxes, 1)) as i32,
        z: round_up_even(high_fold(boxes, 2)) as i32,
    }
}

/// Every maximum corner leaves room to round up to an even `i32`.
pub open spec fn within_range(boxes: Seq<Aabb>) -> bool {
    forall|i: int|
        #![trigger boxes[i]]
        0 <= i < boxes.len() ==> boxes[i].max.x < i32::MAX && boxes[i].max.y < i32::MAX
            && boxes[i].max.z < i32::MAX
}

/// The normalized region has a non-zero span on every axis.
pub open spec fn has_span(boxes: Seq<Aabb>) -> bool {
    let lo = normalized_min(boxes);
    let hi = normalized_max(boxes);
    lo.x != hi.x && lo.y != hi.y && lo.z != hi.z
}

proof fn lemma_folds_in_range(boxes: Seq<Aabb>, a: int)
    requires
        within_range(boxes),
        0 <= a < 3,
    ensures
        i32::MIN <= low_fold(boxes, a) <= 0,
        0 <= high_fold(boxes, a) < i32::MAX,
    decreases boxes.len(),
{
    if boxes.len() > 0 {
        let rest = boxes.drop_last();
        assert forall|i: int| #![trigger rest[i]] 0 <= i < rest.len() implies rest[i].max.x < i32::MAX
            && rest[i].max.y < i32::MAX && rest[i].max.z < i32::MAX by {
            assert(rest[i] == boxes[i]);
        }
        lemma_folds_in_range(rest, a);
        assert(boxes.last() == boxes[boxes.len() - 1]);
    }
}

fn round_down(v: i32) -> (r: i32)
    ensures
        r == round_down_even(v as int),
{
    if v % 2 != 0 {
        v - 1
    } else {
        v
    }
}

fn round_up(v: i32) -> (r: i32)
    requires
        v < i32::MAX,
    ensures
        r == round_up_even(v as int),
{
    if v % 2 != 0 {
        v + 1
    } else {
        v
    }
}

/// The bounding region of `boxes`, seeded from the origin and rounded outward
/// so that both corners are even on every axis.
pub fn normalized_bounds(boxes: &Vec<Aabb>) -> (r: (Point3, Point3))
    requires
        within_range(boxes@),
    ensures
        r.0 == normalized_min(boxes@),
        r.1 == normalized_max(boxes@),
{
    let mut lo = Point3 { x: 0, y: 0, z: 0 };
    let mut hi = Point3 { x: 0, y: 0, z: 0 };
    let mut i: usize = 0;
    while i < boxes.len()
        invariant
            i <= boxes.len(),
            within_range(boxes@),
            lo.x == low_fold(boxes@.take(i as int), 0),
            lo.y == low_fold(boxes@.take(i as int), 1),
            lo.z == low_fold(boxes@.take(i as int), 2),
            hi.x == high_fold(boxes@.take(i as int), 0),
            hi.y == high_fold(boxes@.take(i as int), 1),
            hi.z == high_fold(boxes@.take(i as int), 2),
        decreases boxes.len() - i,
    {
        let b = &boxes[i];
        proof {
            assert(boxes@.take(i as int + 1).drop_last() == boxes@.take(i as int));
            assert(boxes@.take(i as int + 1).last() == boxes@[i as int]);
        }
        if b.min.x < lo.x {
            lo.x = b.min.x;
        }
        if b.min.y < lo.y {
            lo.y = b.min.y;
        }
        if b.min.z < lo.z {
            lo.z = b.min.z;
        }
        if b.max.x > hi.x {
            hi.x = b.max.x;
        }
        if b.max.y > hi.y {
            hi.y = b.max.y;
        }
        if b.max.z > hi.z {
            hi.z = b.max.z;
        }
        i = i + 1;
    }
    proof {
        assert(boxes@.take(boxes@.len() as int) == boxes@);
        lemma_folds_in_range(boxes@, 0);
        lemma_folds_in_range(boxes@, 1);
        lemma_folds_in_range(boxes@, 2);
    }
    (
        Point3 { x: round_down(lo.x), y: round_down(lo.y), z: round_down(lo.z) },
        Point3 { x: round_up(hi.x), y: round_up(hi.y), z: round_up(hi.z) },
    )
}

} // verus!
