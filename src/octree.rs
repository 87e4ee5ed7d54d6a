//! The recursive cell builder and the tree that owns every cell.
use vstd::prelude::*;
use crate::bounds::{has_span, normalized_bounds, normalized_max, normalized_min, within_range};
use crate::pool::{pool_alloc, pool_cells, pool_get, pool_len, pool_new, CellPool};
use crate::geometry::{
    divisible, extent, lemma_octant_shrinks, octant, octant_max, octant_min, overlaps,
    overlaps_region, Aabb, Point3, Volume,
};

verus! {

/// A node of the tree, as stored in the arena.
#[derive(Clone, Debug, PartialEq, Eq)]
pub enum OctreeCell {
    /// A leaf with the indices of the volumes that overlap its region, in
    /// input order.
    FilledCell(Vec<usize>),
    /// An inner node with the arena indices of its eight children, in octant
    /// order.
    EmptyCell(Vec<usize>),
    /// A leaf whose region no volume overlaps.
    EmptyChildlessCell,
}

/// The mathematical form of a cell and everything below it.
pub enum CellModel {
    /// A leaf with the indices of the boxes that overlap it.
    Filled(Seq<usize>),
    /// An inner node with its eight children in octant order.
    Branch(Seq<CellModel>),
    /// A leaf that no box overlaps.
    Vacant,
}

/// Indices of the boxes that overlap the region `[lo, hi]`, in input order.
pub open spec fn overlap_indices(boxes: Seq<Aabb>, lo: Point3, hi: Point3) -> Seq<usize>
    decreases boxes.len(),
{
    if boxes.len() == 0 {
        seq![]
    } else {
        let rest = overlap_indices(boxes.drop_last(), lo, hi);
        if overlaps(lo, hi, boxes.last()) {
            rest.push((boxes.len() - 1) as usize)
        } else {
            rest
        }
    }
}

/// The cell that the builder makes for region `[lo, hi]`: it subdivides when
/// at least `threshold` boxes overlap a region that can be split, is vacant
/// when none does, and is filled with the overlapping boxes otherwise.
pub open spec fn build_model(boxes: Seq<Aabb>, threshold: nat, lo: Point3, hi: Point3) -> CellModel
    decreases extent(lo, hi),
{
    let found = overlap_indices(boxes, lo, hi);
    if found.len() >= threshold && divisible(lo, hi) {
        CellModel::Branch(
            Seq::new(
                8,
                |i: int| build_model(boxes, threshold, octant_min(lo, hi, i), octant_max(lo, hi, i)),
            ),
        )
    } else if found.len() == 0 {
        CellModel::Vacant
    } else {
        CellModel::Filled(found)
    }
}

/// What holds of the cell `t` for region `[lo, hi]` and of every cell below
/// it: a filled leaf holds exactly the boxes that overlap its region, at least
/// one and fewer than `threshold` unless the region cannot be split; a vacant
/// leaf's region overlaps no box; an inner cell's region is overlapped by at
/// least `threshold` boxes and its eight children stand for its octants.
pub open spec fn sound(t: CellModel, boxes: Seq<Aabb>, threshold: nat, lo: Point3, hi: Point3) -> bool
    decreases extent(lo, hi),
{
    let found = overlap_indices(boxes, lo, hi);
    match t {
        CellModel::Filled(s) => {
            &&& s == found
            &&& 1 <= s.len()
            &&& s.len() < threshold || !divisible(lo, hi)
            &&& forall|j: int|
                0 <= j < boxes.len() ==> (s.contains(j as usize) <==> overlaps(lo, hi, #[trigger] boxes[j]))
        },
        CellModel::Vacant => {
            &&& found.len() == 0
            &&& forall|j: int| 0 <= j < boxes.len() ==> !overlaps(lo, hi, #[trigger] boxes[j])
        },
        CellModel::Branch(cs) => {
            &&& divisible(lo, hi)
            &&& found.len() >= threshold
            &&& cs.len() == 8
            &&& forall|k: int|
                0 <= k < 8 ==> sound(
                    #[trigger] cs[k],
                    boxes,
                    threshold,
                    octant_min(lo, hi, k),
                    octant_max(lo, hi, k),
                )
        },
    }
}

/// A box index is listed for a region exactly when that box overlaps it.
proof fn lemma_overlap_members(boxes: Seq<Aabb>, lo: Point3, hi: Point3)
    requires
        boxes.len() <= usize::MAX,
    ensures
        forall|j: int|
            0 <= j < boxes.len() ==> (overlap_indices(boxes, lo, hi).contains(j as usize) <==> overlaps(
                lo,
                hi,
                #[trigger] boxes[j],
            )),
        forall|k: int|
            0 <= k < overlap_indices(boxes, lo, hi).len() ==> #[trigger] overlap_indices(boxes, lo, hi)[k]
                < boxes.len(),
    decreases boxes.len(),
{
    if boxes.len() > 0 {
        let rest = boxes.drop_last();
        lemma_overlap_members(rest, lo, hi);
        let r = overlap_indices(rest, lo, hi);
        let n = (boxes.len() - 1) as usize;
        assert(!r.contains(n)) by {
            if r.contains(n) {
                let k = choose|k: int| 0 <= k < r.len() && r[k] == n;
                assert(r[k] < rest.len());
            }
        }
        assert forall|j: int| 0 <= j < boxes.len() implies (overlap_indices(boxes, lo, hi).contains(
            j as usize,
        ) <==> overlaps(lo, hi, #[trigger] boxes[j])) by {
            if j < rest.len() {
                assert(rest[j] == boxes[j]);
            }
            if overlaps(lo, hi, boxes.last()) {
                assert(r.push(n).contains(n) ==> r.push(n)[r.len() as int] == n);
                assert(forall|x: usize| r.push(n).contains(x) <==> (r.contains(x) || x == n)) by {
                    assert forall|x: usize| r.push(n).contains(x) implies (r.contains(x) || x == n) by {
                        let k = choose|k: int| 0 <= k < r.push(n).len() && r.push(n)[k] == x;
                        if k < r.len() {
                            assert(r[k] == x);
                        }
                    }
                    assert forall|x: usize| r.contains(x) implies r.push(n).contains(x) by {
                        let k = choose|k: int| 0 <= k < r.len() && r[k] == x;
                        assert(r.push(n)[k] == x);
                    }
                    assert(r.push(n)[r.len() as int] == n);
                }
            }
        }
    }
}

/// Every tree that the builder describes is sound for its region.
proof fn lemma_build_sound(boxes: Seq<Aabb>, threshold: nat, lo: Point3, hi: Point3)
    requires
        boxes.len() <= usize::MAX,
    ensures
        sound(build_model(boxes, threshold, lo, hi), boxes, threshold, lo, hi),
    decreases extent(lo, hi),
{
    lemma_overlap_members(boxes, lo, hi);
    let found = overlap_indices(boxes, lo, hi);
    if found.len() >= threshold && divisible(lo, hi) {
        let cs = build_model(boxes, threshold, lo, hi)->Branch_0;
        assert forall|k: int| 0 <= k < 8 implies sound(
            #[trigger] cs[k],
            boxes,
            threshold,
            octant_min(lo, hi, k),
            octant_max(lo, hi, k),
        ) by {
            lemma_octant_shrinks(lo, hi, k);
            lemma_build_sound(boxes, threshold, octant_min(lo, hi, k), octant_max(lo, hi, k));
        }
    } else if found.len() == 0 {
        assert forall|j: int| 0 <= j < boxes.len() implies !overlaps(lo, hi, #[trigger] boxes[j]) by {
            if overlaps(lo, hi, boxes[j]) {
                assert(found.contains(j as usize));
            }
        }
    }
}

/// The built tree is sound for the normalized bounding region of the boxes.
/// Leaves list exactly the boxes that overlap their region, so a box appears
/// in every leaf whose region it overlaps, and no leaf it misses lists it.
/// A filled leaf holds at least one box and fewer than `threshold` unless its
/// region is a single unit wide on some axis; a vacant leaf holds none; an
/// inner cell is overlapped by at least `threshold` boxes, and its eight
/// children are built over its octants, which tile it exactly (see
/// `lemma_octants_tile`).
pub proof fn lemma_tree_sound(boxes: Seq<Aabb>, threshold: nat)
    requires
        boxes.len() <= usize::MAX,
    ensures
        sound(
            octree_model(boxes, threshold),
            boxes,
            threshold,
            normalized_min(boxes),
            normalized_max(boxes),
        ),
{
    lemma_build_sound(boxes, threshold, normalized_min(boxes), normalized_max(boxes));
}

/// Two trees built from the same volumes with the same threshold are
/// identical in shape and in leaf contents.
pub proof fn lemma_rebuild_identical(boxes: Seq<Aabb>, threshold: nat, a: Octree, b: Octree)
    requires
        a@ == octree_model(boxes, threshold),
        b@ == octree_model(boxes, threshold),
    ensures
        a@ == b@,
{
}

/// Every inner cell of the arena names eight children stored before it.
pub open spec fn arena_wf(cells: Seq<OctreeCell>) -> bool {
    forall|i: int|
        #![trigger cells[i]]
        0 <= i < cells.len() ==> match cells[i] {
            OctreeCell::EmptyCell(ch) => ch@.len() == 8 && forall|k: int|
                0 <= k < 8 ==> #[trigger] ch@[k] < i,
            _ => true,
        }
}

/// `cells` keeps every cell of `prev` at its index.
pub open spec fn extends(cells: Seq<OctreeCell>, prev: Seq<OctreeCell>) -> bool {
    prev.len() <= cells.len() && forall|i: int| 0 <= i < prev.len() ==> #[trigger] cells[i] == prev[i]
}

/// The tree rooted at arena index `i`.
pub open spec fn cell_view(cells: Seq<OctreeCell>, i: int) -> CellModel
    decreases i,
{
    if 0 <= i < cells.len() {
        match cells[i] {
            OctreeCell::FilledCell(v) => CellModel::Filled(v@),
            OctreeCell::EmptyCell(ch) => CellModel::Branch(
                Seq::new(
                    8,
                    |k: int|
                        if 0 <= ch@[k] < i {
                            cell_view(cells, ch@[k] as int)
                        } else {
                            CellModel::Vacant
                        },
                ),
            ),
            OctreeCell::EmptyChildlessCell => CellModel::Vacant,
        }
    } else {
        CellModel::Vacant
    }
}

/// Appending cells leaves the tree under every earlier index unchanged.
proof fn lemma_view_stable(cells: Seq<OctreeCell>, prev: Seq<OctreeCell>, i: int)
    requires
        extends(cells, prev),
        0 <= i < prev.len(),
    ensures
        cell_view(cells, i) == cell_view(prev, i),
    decreases i,
{
    assert(cells[i] == prev[i]);
    match prev[i] {
        OctreeCell::EmptyCell(ch) => {
            let a = cell_view(cells, i)->Branch_0;
            let b = cell_view(prev, i)->Branch_0;
            assert forall|k: int| 0 <= k < 8 implies a[k] == b[k] by {
                if 0 <= ch@[k] < i {
                    lemma_view_stable(cells, prev, ch@[k] as int);
                }
            }
            assert(a =~= b);
        },
        _ => {},
    }
}

/// Indices of the boxes that overlap `[lo, hi]`, in input order.
fn overlapping(boxes: &Vec<Aabb>, lo: Point3, hi: Point3) -> (r: Vec<usize>)
    ensures
        r@ == overlap_indices(boxes@, lo, hi),
{
    let mut found: Vec<usize> = Vec::new();
    let mut i: usize = 0;
    while i < boxes.len()
        invariant
            i <= boxes.len(),
            found@ == overlap_indices(boxes@.take(i as int), lo, hi),
        decreases boxes.len() - i,
    {
        proof {
            assert(boxes@.take(i as int + 1).drop_last() == boxes@.take(i as int));
            assert(boxes@.take(i as int + 1).last() == boxes@[i as int]);
        }
        if overlaps_region(lo, hi, &boxes[i]) {
            found.push(i);
        }
        i = i + 1;
    }
    proof {
        assert(boxes@.take(boxes@.len() as int) == boxes@);
    }
    found
}

/// Builds the cell for region `[lo, hi]` and its whole subtree into `cells`,
/// children before their parent, and returns the arena index of the cell.
fn build_recursively(
    cells: &mut CellPool,
    boxes: &Vec<Aabb>,
    threshold: usize,
    lo: Point3,
    hi: Point3,
) -> (r: usize)
    requires
        arena_wf(pool_cells(*old(cells))),
    ensures
        arena_wf(pool_cells(*final(cells))),
        extends(pool_cells(*final(cells)), pool_cells(*old(cells))),
        pool_cells(*old(cells)).len() <= r < pool_cells(*final(cells)).len(),
        cell_view(pool_cells(*final(cells)), r as int) == build_model(boxes@, threshold as nat, lo, hi),
    decreases extent(lo, hi),
{
    let found = overlapping(boxes, lo, hi);
    if found.len() >= threshold && lo.x < hi.x && lo.y < hi.y && lo.z < hi.z {
        let ghost start = pool_cells(*cells);
        let mut children: Vec<usize> = Vec::new();
        let mut i: usize = 0;
        while i < 8
            invariant
                i <= 8,
                divisible(lo, hi),
                children@.len() == i,
                arena_wf(pool_cells(*cells)),
                extends(pool_cells(*cells), start),
                extends(start, pool_cells(*old(cells))),
                forall|k: int| 0 <= k < i ==> start.len() <= #[trigger] children@[k] < pool_cells(*cells).len(),
                forall|k: int|
                    0 <= k < i ==> cell_view(pool_cells(*cells), #[trigger] children@[k] as int) == build_model(
                        boxes@,
                        threshold as nat,
                        octant_min(lo, hi, k),
                        octant_max(lo, hi, k),
                    ),
            decreases 8 - i,
        {
            let (a, b) = octant(lo, hi, i);
            proof {
                lemma_octant_shrinks(lo, hi, i as int);
            }
            let ghost before = pool_cells(*cells);
            let c = build_recursively(cells, boxes, threshold, a, b);
            proof {
                assert forall|k: int| 0 <= k < i implies cell_view(pool_cells(*cells), #[trigger] children@[k] as int)
                    == build_model(boxes@, threshold as nat, octant_min(lo, hi, k), octant_max(lo, hi, k)) by {
                    lemma_view_stable(pool_cells(*cells), before, children@[k] as int);
                }
            }
            children.push(c);
            i = i + 1;
        }
        let n = pool_len(cells);
        let ghost before = pool_cells(*cells);
        let ghost ch = children@;
        pool_alloc(cells, OctreeCell::EmptyCell(children));
        proof {
            assert(pool_cells(*cells)[n as int] == OctreeCell::EmptyCell(children));
            assert forall|k: int| 0 <= k < 8 implies cell_view(pool_cells(*cells), #[trigger] ch[k] as int)
                == cell_view(before, ch[k] as int) by {
                lemma_view_stable(pool_cells(*cells), before, ch[k] as int);
            }
            let got = cell_view(pool_cells(*cells), n as int)->Branch_0;
            let want = build_model(boxes@, threshold as nat, lo, hi)->Branch_0;
            assert forall|k: int| 0 <= k < 8 implies got[k] == want[k] by {
                assert(0 <= ch[k] < n);
            }
            assert(got =~= want);
            assert(cell_view(pool_cells(*cells), n as int) == CellModel::Branch(got));
            assert(arena_wf(pool_cells(*cells))) by {
                assert forall|j: int| 0 <= j < pool_cells(*cells).len() implies match #[trigger] pool_cells(*cells)[j] {
                    OctreeCell::EmptyCell(ch) => ch@.len() == 8 && forall|k: int|
                        0 <= k < 8 ==> #[trigger] ch@[k] < j,
                    _ => true,
                } by {
                    if j < n {
                        assert(pool_cells(*cells)[j] == before[j]);
                    }
                }
            }
        }
        n
    } else {
        let n = pool_len(cells);
        let ghost before = pool_cells(*cells);
        if found.len() == 0 {
            pool_alloc(cells, OctreeCell::EmptyChildlessCell);
        } else {
            pool_alloc(cells, OctreeCell::FilledCell(found));
        }
        proof {
            assert(arena_wf(pool_cells(*cells))) by {
                assert forall|j: int| 0 <= j < pool_cells(*cells).len() implies match #[trigger] pool_cells(*cells)[j] {
                    OctreeCell::EmptyCell(ch) => ch@.len() == 8 && forall|k: int|
                        0 <= k < 8 ==> #[trigger] ch@[k] < j,
                    _ => true,
                } by {
                    if j < n {
                        assert(pool_cells(*cells)[j] == before[j]);
                    }
                }
            }
        }
        n
    }
}

/// The boxes that a set of volumes reports, in order.
pub open spec fn boxes_of<V: Volume>(volumes: Seq<V>) -> Seq<Aabb> {
    volumes.map_values(|v: V| v.bounds())
}

/// The tree built over `boxes`: the cell for their normalized bounding region.
pub open spec fn octree_model(boxes: Seq<Aabb>, threshold: nat) -> CellModel {
    build_model(boxes, threshold, normalized_min(boxes), normalized_max(boxes))
}

/// A static octree. Every cell lives in one arena owned by the tree, children
/// before their parents; dropping the tree releases the arena in one step.
pub struct Octree {
    root_cell: usize,
    cells: CellPool,
    min_bound: Point3,
    max_bound: Point3,
    threshold: usize,
}

impl Octree {
    /// The cell arena.
    pub closed spec fn arena(&self) -> Seq<OctreeCell> {
        pool_cells(self.cells)
    }

    /// Arena index of the root cell.
    pub closed spec fn root_spec(&self) -> int {
        self.root_cell as int
    }

    /// Minimum corner of the root region.
    pub closed spec fn region_min(&self) -> Point3 {
        self.min_bound
    }

    /// Maximum corner of the root region.
    pub closed spec fn region_max(&self) -> Point3 {
        self.max_bound
    }

    /// The leaf capacity threshold the tree was built with.
    pub closed spec fn threshold_spec(&self) -> nat {
        self.threshold as nat
    }

    /// The arena is well formed and holds the root.
    pub open spec fn wf(&self) -> bool {
        arena_wf(self.arena()) && 0 <= self.root_spec() < self.arena().len()
    }

    /// The whole tree, from the root down.
    pub open spec fn view(&self) -> CellModel {
        cell_view(self.arena(), self.root_spec())
    }

    /// Builds the tree over the volumes: the bounding region is normalized to
    /// even corners, then split into octants wherever at least `threshold`
    /// volumes overlap a region.
    pub fn new<V: Volume>(volumes: &Vec<V>, threshold: usize) -> (r: Octree)
        requires
            threshold >= 1,
            within_range(boxes_of(volumes@)),
            has_span(boxes_of(volumes@)),
        ensures
            r.wf(),
            r@ == octree_model(boxes_of(volumes@), threshold as nat),
            r.region_min() == normalized_min(boxes_of(volumes@)),
            r.region_max() == normalized_max(boxes_of(volumes@)),
            r.threshold_spec() == threshold,
    {
        let boxes = collect_boxes(volumes);
        let (min_bound, max_bound) = normalized_bounds(&boxes);
        Octree::build(&boxes, threshold, min_bound, max_bound)
    }

    /// Builds every cell for the region `[min_bound, max_bound]` into a fresh
    /// arena.
    fn build(boxes: &Vec<Aabb>, threshold: usize, min_bound: Point3, max_bound: Point3) -> (r: Octree)
        ensures
            r.wf(),
            r@ == build_model(boxes@, threshold as nat, min_bound, max_bound),
            r.region_min() == min_bound,
            r.region_max() == max_bound,
            r.threshold_spec() == threshold,
    {
        let mut cells = pool_new();
        let root_cell = build_recursively(&mut cells, boxes, threshold, min_bound, max_bound);
        Octree { root_cell, cells, min_bound, max_bound, threshold }
    }

    /// Builds the tree as `new` does, or returns `None` when the normalized
    /// bounding region has zero span on some axis.
    pub fn try_new<V: Volume>(volumes: &Vec<V>, threshold: usize) -> (r: Option<Octree>)
        requires
            threshold >= 1,
            within_range(boxes_of(volumes@)),
        ensures
            r is None <==> !has_span(boxes_of(volumes@)),
            r matches Some(t) ==> t.wf() && t@ == octree_model(boxes_of(volumes@), threshold as nat)
                && t.region_min() == normalized_min(boxes_of(volumes@)) && t.region_max()
                == normalized_max(boxes_of(volumes@)) && t.threshold_spec() == threshold,
    {
        let boxes = collect_boxes(volumes);
        let (min_bound, max_bound) = normalized_bounds(&boxes);
        if min_bound.x == max_bound.x || min_bound.y == max_bound.y || min_bound.z == max_bound.z {
            return None;
        }
        Some(Octree::build(&boxes, threshold, min_bound, max_bound))
    }

    /// Arena index of the root cell.
    pub fn root_index(&self) -> (r: usize)
        ensures
            r == self.root_spec(),
    {
        self.root_cell
    }

    /// The root cell.
    pub fn root_cell(&self) -> (r: &OctreeCell)
        requires
            self.wf(),
        ensures
            *r == self.arena()[self.root_spec()],
    {
        pool_get(&self.cells, self.root_cell)
    }

    /// The cell at arena index `i`. The arena is walked from its first cell.
    pub fn cell(&self, i: usize) -> (r: &OctreeCell)
        requires
            i < self.arena().len(),
        ensures
            *r == self.arena()[i as int],
    {
        pool_get(&self.cells, i)
    }

    /// Number of cells in the arena.
    pub fn cell_count(&self) -> (r: usize)
        ensures
            r == self.arena().len(),
    {
        pool_len(&self.cells)
    }

    /// Minimum corner of the root region.
    pub fn min_bound(&self) -> (r: Point3)
        ensures
            r == self.region_min(),
    {
        self.min_bound
    }

    /// Maximum corner of the root region.
    pub fn max_bound(&self) -> (r: Point3)
        ensures
            r == self.region_max(),
    {
        self.max_bound
    }

    /// The leaf capacity threshold.
    pub fn threshold(&self) -> (r: usize)
        ensures
            r == self.threshold_spec(),
    {
        self.threshold
    }
}

/// The boxes that `volumes` report, in order.
fn collect_boxes<V: Volume>(volumes: &Vec<V>) -> (r: Vec<Aabb>)
    ensures
        r@ == boxes_of(volumes@),
{
    let mut boxes: Vec<Aabb> = Vec::new();
    let mut i: usize = 0;
    while i < volumes.len()
        invariant
            i <= volumes.len(),
            boxes@ == boxes_of(volumes@.take(i as int)),
        decreases volumes.len() - i,
    {
        let v = &volumes[i];
        let b = Aabb { min: v.min(), max: v.max() };
        proof {
            assert(boxes_of(volumes@.take(i as int + 1)) =~= boxes_of(volumes@.take(i as int)).push(b));
        }
        boxes.push(b);
        i = i + 1;
    }
    proof {
        assert(volumes@.take(volumes@.len() as int) == volumes@);
    }
    boxes
}

} // verus!
