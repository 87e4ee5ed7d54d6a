//! Integer points, boxes, and the subdivision of a region into octants.
use vstd::prelude::*;

verus! {

/// A point in 3D integer space.
#[derive(Clone, Copy, Debug, PartialEq, Eq, Structural)]
pub struct Point3 {
    pub x: i32,
    pub y: i32,
    pub z: i32,
}

/// An axis-aligned box given by inclusive minimum and maximum corners.
#[derive(Clone, Copy, Debug, PartialEq, Eq, Structural)]
pub struct Aabb {
    pub min: Point3,
    pub max: Point3,
}

/// Anything with an axis-aligned integer bounding box: inclusive minimum
/// and maximum corners.
pub trait Volume {
    /// The box that `min` and `max` report.
    spec fn bounds(&self) -> Aabb;

    /// Inclusive minimum corner.
    fn min(&self) -> (r: Point3)
        ensures
            r == self.bounds().min,
    ;

    /// Inclusive maximum corner.
    fn max(&self) -> (r: Point3)
        ensures
            r == self.bounds().max,
    ;
}

impl Volume for Aabb {
    open spec fn bounds(&self) -> Aabb {
        *self
    }

    fn min(&self) -> (r: Point3) {
        self.min
    }

    fn max(&self) -> (r: Point3) {
        self.max
    }
}

/// Coordinate of `p` on axis `a` (0 is x, 1 is y, 2 is z).
pub open spec fn coord(p: Point3, a: int) -> int {
    if a == 0 {
        p.x as int
    } else if a == 1 {
        p.y as int
    } else {
        p.z as int
    }
}

/// Whether `p` lies inside the closed box `[lo, hi]`.
pub open spec fn contains_point(lo: Point3, hi: Point3, p: (int, int, int)) -> bool {
    lo.x <= p.0 <= hi.x && lo.y <= p.1 <= hi.y && lo.z <= p.2 <= hi.z
}

/// Closed-interval overlap of box `b` with the region `[lo, hi]`, on every axis.
pub open spec fn overlaps(lo: Point3, hi: Point3, b: Aabb) -> bool {
    &&& lo.x <= b.max.x && hi.x >= b.min.x
    &&& lo.y <= b.max.y && hi.y >= b.min.y
    &&& lo.z <= b.max.z && hi.z >= b.min.z
}

/// A region can be split into eight non-empty octants when it is wider than
/// one unit on every axis.
pub open spec fn divisible(lo: Point3, hi: Point3) -> bool {
    lo.x < hi.x && lo.y < hi.y && lo.z < hi.z
}

/// Floor of the mean of `lo` and `hi`.
pub open spec fn mid(lo: int, hi: int) -> int {
    lo + (hi - lo) / 2
}

/// Lower end of the half of `[lo, hi]` that `upper` selects.
pub open spec fn half_lo(lo: int, hi: int, upper: bool) -> int {
    if upper {
        mid(lo, hi) + 1
    } else {
        lo
    }
}

/// Upper end of the half of `[lo, hi]` that `upper` selects.
pub open spec fn half_hi(lo: int, hi: int, upper: bool) -> int {
    if upper {
        hi
    } else {
        mid(lo, hi)
    }
}

/// Bit `a` of octant index `i`: bit 0 picks the x half, bit 1 the y half,
/// bit 2 the z half.
pub open spec fn octant_bit(i: int, a: int) -> bool {
    if a == 0 {
        i % 2 == 1
    } else if a == 1 {
        (i / 2) % 2 == 1
    } else {
        (i / 4) % 2 == 1
    }
}

/// Minimum corner of octant `i` of the region `[lo, hi]`.
pub open spec fn octant_min(lo: Point3, hi: Point3, i: int) -> Point3 {
    Point3 {
        x: half_lo(lo.x as int, hi.x as int, octant_bit(i, 0)) as i32,
        y: half_lo(lo.y as int, hi.y as int, octant_bit(i, 1)) as i32,
        z: half_lo(lo.z as int, hi.z as int, octant_bit(i, 2)) as i32,
    }
}

/// Maximum corner of octant `i` of the region `[lo, hi]`.
pub open spec fn octant_max(lo: Point3, hi: Point3, i: int) -> Point3 {
    Point3 {
        x: half_hi(lo.x as int, hi.x as int, octant_bit(i, 0)) as i32,
        y: half_hi(lo.y as int, hi.y as int, octant_bit(i, 1)) as i32,
        z: half_hi(lo.z as int, hi.z as int, octant_bit(i, 2)) as i32,
    }
}

/// Sum of the widths of a region: it falls with every subdivision.
pub open spec fn extent(lo: Point3, hi: Point3) -> nat {
    ((hi.x - lo.x) + (hi.y - lo.y) + (hi.z - lo.z)) as nat
}

/// Overlap of `b` with the region `[lo, hi]`, as the builder decides it.
pub fn overlaps_region(lo: Point3, hi: Point3, b: &Aabb) -> (r: bool)
    ensures
        r == overlaps(lo, hi, *b),
{
    lo.x <= b.max.x && hi.x >= b.min.x && lo.y <= b.max.y && hi.y >= b.min.y && lo.z <= b.max.z
        && hi.z >= b.min.z
}

/// Floor of the mean of two coordinates, free of overflow.
fn midpoint(lo: i32, hi: i32) -> (r: i32)
    requires
        lo <= hi,
    ensures
        r == mid(lo as int, hi as int),
        lo <= r <= hi,
{
    let w: i64 = hi as i64 - lo as i64;
    (lo as i64 + w / 2) as i32
}

/// Corners of octant `i` of a divisible region.
pub fn octant(lo: Point3, hi: Point3, i: usize) -> (r: (Point3, Point3))
    requires
        divisible(lo, hi),
        i < 8,
    ensures
        r.0 == octant_min(lo, hi, i as int),
        r.1 == octant_max(lo, hi, i as int),
{
    let mx = midpoint(lo.x, hi.x);
    let my = midpoint(lo.y, hi.y);
    let mz = midpoint(lo.z, hi.z);
    let (x0, x1) = if i % 2 == 1 { (mx + 1, hi.x) } else { (lo.x, mx) };
    let (y0, y1) = if (i / 2) % 2 == 1 { (my + 1, hi.y) } else { (lo.y, my) };
    let (z0, z1) = if (i / 4) % 2 == 1 { (mz + 1, hi.z) } else { (lo.z, mz) };
    (Point3 { x: x0, y: y0, z: z0 }, Point3 { x: x1, y: y1, z: z1 })
}

/// Each octant of a divisible region is a non-empty box inside it, with a
/// smaller extent.
pub proof fn lemma_octant_shrinks(lo: Point3, hi: Point3, i: int)
    requires
        divisible(lo, hi),
        0 <= i < 8,
    ensures
        lo.x <= octant_min(lo, hi, i).x <= octant_max(lo, hi, i).x <= hi.x,
        lo.y <= octant_min(lo, hi, i).y <= octant_max(lo, hi, i).y <= hi.y,
        lo.z <= octant_min(lo, hi, i).z <= octant_max(lo, hi, i).z <= hi.z,
        extent(octant_min(lo, hi, i), octant_max(lo, hi, i)) < extent(lo, hi),
{
}

/// The eight octants of a divisible region tile it exactly: every integer
/// point of the region lies in exactly one octant, and every point of an
/// octant lies in the region.
pub proof fn lemma_octants_tile(lo: Point3, hi: Point3, p: (int, int, int))
    requires
        divisible(lo, hi),
    ensures
        contains_point(lo, hi, p) ==> (exists|i: int|
            0 <= i < 8 && contains_point(
                #[trigger] octant_min(lo, hi, i),
                octant_max(lo, hi, i),
                p,
            )),
        forall|i: int, j: int|
            0 <= i < 8 && 0 <= j < 8 && contains_point(#[trigger] octant_min(lo, hi, i), octant_max(lo, hi, i), p)
                && contains_point(#[trigger] octant_min(lo, hi, j), octant_max(lo, hi, j), p) ==> i == j,
        forall|i: int|
            0 <= i < 8 && contains_point(#[trigger] octant_min(lo, hi, i), octant_max(lo, hi, i), p)
                ==> contains_point(lo, hi, p),
{
    if contains_point(lo, hi, p) {
        let bx: int = if p.0 > mid(lo.x as int, hi.x as int) { 1 } else { 0 };
        let by: int = if p.1 > mid(lo.y as int, hi.y as int) { 1 } else { 0 };
        let bz: int = if p.2 > mid(lo.z as int, hi.z as int) { 1 } else { 0 };
        let i = bx + 2 * by + 4 * bz;
        assert(contains_point(octant_min(lo, hi, i), octant_max(lo, hi, i), p));
    }
    assert forall|i: int, j: int|
        0 <= i < 8 && 0 <= j < 8 && contains_point(#[trigger] octant_min(lo, hi, i), octant_max(lo, hi, i), p)
            && contains_point(#[trigger] octant_min(lo, hi, j), octant_max(lo, hi, j), p) implies i == j by {
        assert(i == (if octant_bit(i, 0) { 1int } else { 0 }) + 2 * (if octant_bit(i, 1) { 1int } else { 0 })
            + 4 * (if octant_bit(i, 2) { 1int } else { 0 }));
        assert(j == (if octant_bit(j, 0) { 1int } else { 0 }) + 2 * (if octant_bit(j, 1) { 1int } else { 0 })
            + 4 * (if octant_bit(j, 2) { 1int } else { 0 }));
    }
}

} // verus!
