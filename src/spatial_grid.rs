//! A uniform grid over the points' plane: each point index sits in the bucket
//! of the cell that holds it, and a query unions the buckets of the cells that
//! the query box overlaps.
use vstd::prelude::*;
use std::collections::HashMap;
use crate::geometry::{BoundingBox, LidarPoint, in_bbox, floor_div};

verus! {

broadcast use vstd::std_specs::hash::group_hash_axioms;

/// Column and row of a grid cell, counted from the grid's origin.
#[derive(Clone, Copy, Debug, PartialEq, Eq, Hash, Structural)]
pub struct GridCellKey {
    pub col: i64,
    pub row: i64,
}

/// Appends the indices of `v` to `out`.
fn append_indices(out: &mut Vec<usize>, v: &Vec<usize>)
    ensures
        final(out)@ == old(out)@ + v@,
{
    let ghost start = out@;
    let mut i: usize = 0;
    while i < v.len()
        invariant
            i <= v.len(),
            out@ == start + v@.take(i as int),
        decreases v.len() - i,
    {
        out.push(v[i]);
        assert(v@.take(i + 1) =~= v@.take(i as int).push(v@[i as int]));
        i += 1;
    }
    assert(v@.take(v.len() as int) =~= v@);
}

/// Number of distinct columns (and rows) that a bucket key can tell apart.
pub const KEY_SPAN: u64 = 0x1_0000_0000;

pub struct SpatialGridIndex {
    cell_size: i64,
    origin_x: i32,
    origin_y: i32,
    /// Buckets by `col * KEY_SPAN + row`.
    cells: HashMap<u64, Vec<usize>>,
    point_count: usize,
    /// Columns and rows spanned by the indexed points.
    cols: i64,
    rows: i64,
    indexed: Ghost<Seq<LidarPoint>>,
}

pub open spec fn cell_coord(v: int, origin: int, cell_size: int) -> int {
    (v - origin) / cell_size
}

pub open spec fn bucket_of(col: int, row: int) -> u64 {
    (col * KEY_SPAN + row) as u64
}

/// The bucket key of the cell that holds `p`.
pub open spec fn key_of_point(p: LidarPoint, ox: int, oy: int, cs: int) -> u64 {
    bucket_of(cell_coord(p.x as int, ox, cs), cell_coord(p.y as int, oy, cs))
}

proof fn lemma_bucket_injective(c1: int, r1: int, c2: int, r2: int)
    requires
        0 <= c1 < KEY_SPAN,
        0 <= r1 < KEY_SPAN,
        0 <= c2 < KEY_SPAN,
        0 <= r2 < KEY_SPAN,
        bucket_of(c1, r1) == bucket_of(c2, r2),
    ensures
        c1 == c2 && r1 == r2,
{
    assert(0 <= c1 * KEY_SPAN + r1 < KEY_SPAN * KEY_SPAN) by (nonlinear_arith)
        requires
            0 <= c1 < KEY_SPAN,
            0 <= r1 < KEY_SPAN,
    ;
    assert(0 <= c2 * KEY_SPAN + r2 < KEY_SPAN * KEY_SPAN) by (nonlinear_arith)
        requires
            0 <= c2 < KEY_SPAN,
            0 <= r2 < KEY_SPAN,
    ;
    vstd::arithmetic::div_mod::lemma_fundamental_div_mod_converse(c1 * KEY_SPAN + r1, KEY_SPAN as int, c1, r1);
    vstd::arithmetic::div_mod::lemma_fundamental_div_mod_converse(c2 * KEY_SPAN + r2, KEY_SPAN as int, c2, r2);
}

impl SpatialGridIndex {
    pub closed spec fn points(self) -> Seq<LidarPoint> {
        self.indexed@
    }

    pub closed spec fn spec_cell_size(self) -> int {
        self.cell_size as int
    }

    pub closed spec fn spec_origin_x(self) -> int {
        self.origin_x as int
    }

    pub closed spec fn spec_origin_y(self) -> int {
        self.origin_y as int
    }

    /// Column of the cell that holds indexed point `i`.
    pub open spec fn cell_col(self, i: int) -> int {
        cell_coord(self.points()[i].x as int, self.spec_origin_x(), self.spec_cell_size())
    }

    /// Row of the cell that holds indexed point `i`.
    pub open spec fn cell_row(self, i: int) -> int {
        cell_coord(self.points()[i].y as int, self.spec_origin_y(), self.spec_cell_size())
    }

    /// Whether indexed point `i` lies in a cell of columns `c_lo..=c_hi` and
    /// rows `r_lo..=r_hi`.
    pub open spec fn cell_in(self, i: int, c_lo: int, c_hi: int, r_lo: int, r_hi: int) -> bool {
        c_lo <= self.cell_col(i) <= c_hi && r_lo <= self.cell_row(i) <= r_hi
    }

    /// The indices in the bucket of cell `(col, row)`; empty when it has none.
    pub closed spec fn bucket(self, col: int, row: int) -> Seq<usize> {
        if 0 <= col < KEY_SPAN && 0 <= row < KEY_SPAN && self.cells@.contains_key(bucket_of(col, row)) {
            self.cells@[bucket_of(col, row)]@
        } else {
            Seq::empty()
        }
    }

    /// Each indexed point's index sits in the bucket of its own cell and in no
    /// other; each bucket lists its indices in increasing order.
    pub open spec fn buckets_exact(self) -> bool {
        &&& forall|i: int|
            0 <= i < self.points().len() ==> #[trigger] self.bucket(self.cell_col(i), self.cell_row(i)).contains(
                i as usize,
            )
        &&& forall|col: int, row: int, j: int|
            0 <= j < self.bucket(col, row).len() ==> {
                let i = #[trigger] self.bucket(col, row)[j];
                &&& i < self.points().len()
                &&& self.cell_col(i as int) == col
                &&& self.cell_row(i as int) == row
            }
        &&& forall|col: int, row: int, a: int, b: int|
            0 <= a < b < self.bucket(col, row).len() ==> #[trigger] self.bucket(col, row)[a]
                < #[trigger] self.bucket(col, row)[b]
    }

    /// Every indexed point sits in the bucket of its cell, buckets only hold
    /// indices of indexed points of their own cell, in increasing order.
    pub closed spec fn wf(self) -> bool {
        &&& self.cell_size > 0
        &&& 0 <= self.cols <= KEY_SPAN
        &&& 0 <= self.rows <= KEY_SPAN
        &&& self.point_count == self.indexed@.len()
        &&& forall|k: u64, j: int|
            self.cells@.contains_key(k) && 0 <= j < self.cells@[k]@.len() ==> #[trigger] self.cells@[k]@[j]
                < self.point_count && key_of_point(
                self.indexed@[self.cells@[k]@[j] as int],
                self.origin_x as int,
                self.origin_y as int,
                self.cell_size as int,
            ) == k
        &&& forall|k: u64, a: int, b: int|
            self.cells@.contains_key(k) && 0 <= a < b < self.cells@[k]@.len() ==> #[trigger] self.cells@[k]@[a]
                < #[trigger] self.cells@[k]@[b]
        &&& forall|i: int|
            0 <= i < self.point_count ==> {
                let p = #[trigger] self.indexed@[i];
                let c = cell_coord(p.x as int, self.origin_x as int, self.cell_size as int);
                let r = cell_coord(p.y as int, self.origin_y as int, self.cell_size as int);
                &&& 0 <= c < self.cols
                &&& 0 <= r < self.rows
                &&& self.cells@.contains_key(bucket_of(c, r))
                &&& self.cells@[bucket_of(c, r)]@.contains(i as usize)
            }
    }

    proof fn lemma_buckets_exact(self)
        requires
            self.wf(),
        ensures
            self.buckets_exact(),
    {
        assert forall|col: int, row: int, j: int| 0 <= j < self.bucket(col, row).len() implies {
            let i = #[trigger] self.bucket(col, row)[j];
            &&& i < self.points().len()
            &&& self.cell_col(i as int) == col
            &&& self.cell_row(i as int) == row
        } by {
            let k = bucket_of(col, row);
            let i = self.cells@[k]@[j];
            assert(self.indexed@[i as int] == self.points()[i as int]);
            lemma_bucket_injective(col, row, self.cell_col(i as int), self.cell_row(i as int));
        }
        assert forall|i: int| 0 <= i < self.points().len() implies #[trigger] self.bucket(
            self.cell_col(i),
            self.cell_row(i),
        ).contains(i as usize) by {
            assert(self.indexed@[i] == self.points()[i]);
        }
    }

    /// An empty index with the given cell size, its origin at the box's
    /// minimum corner or at `(0, 0)`.
    pub fn new(cell_size: i64, bounds: Option<BoundingBox>) -> (r: SpatialGridIndex)
        requires
            cell_size > 0,
        ensures
            r.wf(),
            r.points().len() == 0,
            r.spec_cell_size() == cell_size,
            r.spec_origin_x() == match bounds {
                Some(b) => b.min_x as int,
                None => 0,
            },
            r.spec_origin_y() == match bounds {
                Some(b) => b.min_y as int,
                None => 0,
            },
    {
        let (origin_x, origin_y) = match bounds {
            Some(b) => (b.min_x, b.min_y),
            None => (0i32, 0i32),
        };
        SpatialGridIndex {
            cell_size,
            origin_x,
            origin_y,
            cells: HashMap::new(),
            point_count: 0,
            cols: 0,
            rows: 0,
            indexed: Ghost(Seq::empty()),
        }
    }

    /// The cell that holds the planar position `(x, y)`.
    pub fn cell_key(&self, x: i32, y: i32) -> (r: GridCellKey)
        requires
            self.wf(),
        ensures
            r.col == cell_coord(x as int, self.spec_origin_x(), self.spec_cell_size()),
            r.row == cell_coord(y as int, self.spec_origin_y(), self.spec_cell_size()),
    {
        proof {
            self.lemma_coord_bounds(x as int, self.origin_x as int);
            self.lemma_coord_bounds(y as int, self.origin_y as int);
        }
        GridCellKey {
            col: floor_div(x as i64 - self.origin_x as i64, self.cell_size),
            row: floor_div(y as i64 - self.origin_y as i64, self.cell_size),
        }
    }

    proof fn lemma_coord_bounds(self, v: int, origin: int)
        requires
            self.cell_size > 0,
            i32::MIN <= v <= i32::MAX,
            i32::MIN <= origin <= i32::MAX,
        ensures
            -KEY_SPAN <= cell_coord(v, origin, self.cell_size as int) < KEY_SPAN,
    {
        let d = v - origin;
        let cs = self.cell_size as int;
        vstd::arithmetic::div_mod::lemma_div_is_ordered(d, KEY_SPAN as int - 1, cs);
        vstd::arithmetic::div_mod::lemma_div_is_ordered(-(KEY_SPAN as int), d, cs);
        vstd::arithmetic::div_mod::lemma_div_is_ordered_by_denominator(KEY_SPAN as int - 1, 1, cs);
        assert(-(KEY_SPAN as int) / cs >= -(KEY_SPAN as int)) by {
            vstd::arithmetic::div_mod::lemma_fundamental_div_mod(-(KEY_SPAN as int), cs);
            vstd::arithmetic::div_mod::lemma_mod_bound(-(KEY_SPAN as int), cs);
            assert(-(KEY_SPAN as int) / cs >= -(KEY_SPAN as int)) by (nonlinear_arith)
                requires
                    -(KEY_SPAN as int) == cs * (-(KEY_SPAN as int) / cs) + (-(KEY_SPAN as int)) % cs,
                    0 <= (-(KEY_SPAN as int)) % cs < cs,
                    cs >= 1,
            ;
        }
    }

    /// Indexes every point of `points` in cells of side `cell_size`, the
    /// origin at the points' minimum corner.
    pub fn build_from_points(points: &[LidarPoint], cell_size: i64) -> (r: SpatialGridIndex)
        requires
            cell_size > 0,
        ensures
            r.wf(),
            r.buckets_exact(),
            r.points() == points@,
            r.spec_cell_size() == cell_size,
            points@.len() > 0 ==> forall|i: int|
                0 <= i < points@.len() ==> r.spec_origin_x() <= #[trigger] points@[i].x && r.spec_origin_y()
                    <= points@[i].y,
            points@.len() > 0 ==> exists|i: int| 0 <= i < points@.len() && #[trigger] points@[i].x == r.spec_origin_x(),
            points@.len() > 0 ==> exists|i: int| 0 <= i < points@.len() && #[trigger] points@[i].y == r.spec_origin_y(),
    {
        let n = points.len();
        let mut min_x: i32 = i32::MAX;
        let mut min_y: i32 = i32::MAX;
        let mut max_x: i32 = i32::MIN;
        let mut max_y: i32 = i32::MIN;
        let mut i: usize = 0;
        while i < n
            invariant
                i <= n,
                n == points@.len(),
                forall|j: int|
                    0 <= j < i ==> min_x <= #[trigger] points@[j].x <= max_x && min_y <= points@[j].y
                        <= max_y,
                i == 0 ==> min_x == i32::MAX && min_y == i32::MAX,
                i > 0 ==> exists|j: int| 0 <= j < i && #[trigger] points@[j].x == min_x,
                i > 0 ==> exists|j: int| 0 <= j < i && #[trigger] points@[j].y == min_y,
            decreases n - i,
        {
            let p = points[i];
            assert(points@[i as int] == p);
            let ghost old_min_x = min_x;
            let ghost old_min_y = min_y;
            if p.x < min_x {
                min_x = p.x;
            }
            if p.y < min_y {
                min_y = p.y;
            }
            if p.x > max_x {
                max_x = p.x;
            }
            if p.y > max_y {
                max_y = p.y;
            }
            proof {
                if min_x == p.x {
                    assert(points@[i as int].x == min_x);
                } else {
                    assert(i > 0);
                    let j = choose|j: int| 0 <= j < i && #[trigger] points@[j].x == old_min_x;
                    assert(points@[j].x == min_x);
                }
                if min_y == p.y {
                    assert(points@[i as int].y == min_y);
                } else {
                    assert(i > 0);
                    let j = choose|j: int| 0 <= j < i && #[trigger] points@[j].y == old_min_y;
                    assert(points@[j].y == min_y);
                }
            }
            i += 1;
        }
        let mut index = SpatialGridIndex::new(cell_size, Some(BoundingBox::new(min_x, min_y, max_x, max_y)));
        proof {
            index.lemma_coord_bounds(max_x as int, min_x as int);
            index.lemma_coord_bounds(max_y as int, min_y as int);
        }
        if n > 0 {
            assert(min_x <= points@[0].x <= max_x && min_y <= points@[0].y <= max_y);
            proof {
                vstd::arithmetic::div_mod::lemma_div_is_ordered(0, max_x - min_x, cell_size as int);
                vstd::arithmetic::div_mod::lemma_div_is_ordered(0, max_y - min_y, cell_size as int);
            }
            index.cols = floor_div(max_x as i64 - min_x as i64, cell_size) + 1;
            index.rows = floor_div(max_y as i64 - min_y as i64, cell_size) + 1;
        }
        index.point_count = n;
        index.indexed = Ghost(points@);
        let mut i: usize = 0;
        while i < n
            invariant
                i <= n,
                n == points@.len(),
                index.cell_size == cell_size,
                cell_size > 0,
                index.origin_x == min_x,
                index.origin_y == min_y,
                index.point_count == n,
                index.indexed@ == points@,
                0 <= index.cols <= KEY_SPAN,
                0 <= index.rows <= KEY_SPAN,
                n > 0 ==> index.cols == cell_coord(max_x as int, min_x as int, cell_size as int) + 1,
                n > 0 ==> index.rows == cell_coord(max_y as int, min_y as int, cell_size as int) + 1,
                forall|j: int|
                    0 <= j < n ==> min_x <= #[trigger] points@[j].x <= max_x && min_y <= points@[j].y
                        <= max_y,
                forall|k: u64, j: int|
                    index.cells@.contains_key(k) && 0 <= j < index.cells@[k]@.len()
                        ==> #[trigger] index.cells@[k]@[j] < i && key_of_point(
                        points@[index.cells@[k]@[j] as int],
                        min_x as int,
                        min_y as int,
                        cell_size as int,
                    ) == k,
                forall|k: u64, a: int, b: int|
                    index.cells@.contains_key(k) && 0 <= a < b < index.cells@[k]@.len()
                        ==> #[trigger] index.cells@[k]@[a] < #[trigger] index.cells@[k]@[b],
                forall|j: int|
                    0 <= j < i ==> {
                        let p = #[trigger] points@[j];
                        let c = cell_coord(p.x as int, min_x as int, cell_size as int);
                        let r = cell_coord(p.y as int, min_y as int, cell_size as int);
                        &&& index.cells@.contains_key(bucket_of(c, r))
                        &&& index.cells@[bucket_of(c, r)]@.contains(j as usize)
                    },
            decreases n - i,
        {
            let p = points[i];
            proof {
                index.lemma_coord_bounds(p.x as int, min_x as int);
                index.lemma_coord_bounds(p.y as int, min_y as int);
            }
            let key = GridCellKey {
                col: floor_div(p.x as i64 - min_x as i64, cell_size),
                row: floor_div(p.y as i64 - min_y as i64, cell_size),
            };
            proof {
                vstd::arithmetic::div_mod::lemma_div_is_ordered(0, p.x - min_x, cell_size as int);
                vstd::arithmetic::div_mod::lemma_div_is_ordered(0, p.y - min_y, cell_size as int);
                vstd::arithmetic::div_mod::lemma_div_is_ordered(p.x - min_x, max_x - min_x, cell_size as int);
                vstd::arithmetic::div_mod::lemma_div_is_ordered(p.y - min_y, max_y - min_y, cell_size as int);
                assert(0 <= key.col < KEY_SPAN);
                assert(0 <= key.row < KEY_SPAN);
                assert(key.col * KEY_SPAN + key.row < KEY_SPAN * KEY_SPAN) by (nonlinear_arith)
                    requires
                        0 <= key.col < KEY_SPAN,
                        0 <= key.row < KEY_SPAN,
                ;
                assert(key.col * KEY_SPAN + key.row >= 0) by (nonlinear_arith)
                    requires
                        0 <= key.col,
                        0 <= key.row,
                ;
            }
            let bucket: u64 = key.col as u64 * KEY_SPAN + key.row as u64;
            assert(bucket == bucket_of(key.col as int, key.row as int));
            let ghost old_cells = index.cells@;
            match index.cells.remove(&bucket) {
                Some(mut v) => {
                    let ghost old_v = v@;
                    v.push(i);
                    assert(v@ == old_v.push(i));
                    index.cells.insert(bucket, v);
                    proof {
                        assert forall|j: int| 0 <= j < i implies {
                            let q = #[trigger] points@[j];
                            let c = cell_coord(q.x as int, min_x as int, cell_size as int);
                            let r = cell_coord(q.y as int, min_y as int, cell_size as int);
                            &&& index.cells@.contains_key(bucket_of(c, r))
                            &&& index.cells@[bucket_of(c, r)]@.contains(j as usize)
                        } by {
                            let q = points@[j];
                            let c = cell_coord(q.x as int, min_x as int, cell_size as int);
                            let r = cell_coord(q.y as int, min_y as int, cell_size as int);
                            if bucket_of(c, r) == bucket {
                                let t = choose|t: int| 0 <= t < old_v.len() && old_v[t] == j as usize;
                                assert(v@[t] == j as usize);
                            }
                        }
                        assert(v@[old_v.len() as int] == i);
                        assert forall|k: u64, a: int, b: int|
                            index.cells@.contains_key(k) && 0 <= a < b < index.cells@[k]@.len()
                                implies #[trigger] index.cells@[k]@[a] < #[trigger] index.cells@[k]@[b] by {
                            if k == bucket {
                                assert(old_cells.contains_key(k));
                                if b < old_v.len() {
                                    assert(v@[a] == old_v[a] && v@[b] == old_v[b]);
                                } else {
                                    assert(v@[a] == old_v[a]);
                                }
                            } else {
                                assert(old_cells.contains_key(k));
                            }
                        }
                        assert forall|k: u64, j: int|
                            index.cells@.contains_key(k) && 0 <= j < index.cells@[k]@.len()
                                implies #[trigger] index.cells@[k]@[j] < i + 1 && key_of_point(
                                points@[index.cells@[k]@[j] as int],
                                min_x as int,
                                min_y as int,
                                cell_size as int,
                            ) == k by {
                            if k == bucket {
                                assert(old_cells.contains_key(k));
                                if j < old_v.len() {
                                    assert(v@[j] == old_v[j]);
                                }
                            } else {
                                assert(old_cells.contains_key(k));
                            }
                        }
                    }
                },
                None => {
                    let mut v: Vec<usize> = Vec::new();
                    v.push(i);
                    assert(v@[0] == i);
                    index.cells.insert(bucket, v);
                    proof {
                        assert forall|k: u64, j: int|
                            index.cells@.contains_key(k) && 0 <= j < index.cells@[k]@.len()
                                implies #[trigger] index.cells@[k]@[j] < i + 1 && key_of_point(
                                points@[index.cells@[k]@[j] as int],
                                min_x as int,
                                min_y as int,
                                cell_size as int,
                            ) == k by {
                            if k != bucket {
                                assert(old_cells.contains_key(k));
                            }
                        }
                        assert forall|k: u64, a: int, b: int|
                            index.cells@.contains_key(k) && 0 <= a < b < index.cells@[k]@.len()
                                implies #[trigger] index.cells@[k]@[a] < #[trigger] index.cells@[k]@[b] by {
                            if k != bucket {
                                assert(old_cells.contains_key(k));
                            }
                        }
                    }
                },
            }
            i += 1;
        }
        proof {
            assert forall|j: int| 0 <= j < index.point_count implies {
                let p = #[trigger] index.indexed@[j];
                let c = cell_coord(p.x as int, index.origin_x as int, index.cell_size as int);
                let r = cell_coord(p.y as int, index.origin_y as int, index.cell_size as int);
                &&& 0 <= c < index.cols
                &&& 0 <= r < index.rows
                &&& index.cells@.contains_key(bucket_of(c, r))
                &&& index.cells@[bucket_of(c, r)]@.contains(j as usize)
            } by {
                let p = points@[j];
                vstd::arithmetic::div_mod::lemma_div_is_ordered(0, p.x - min_x, cell_size as int);
                vstd::arithmetic::div_mod::lemma_div_is_ordered(0, p.y - min_y, cell_size as int);
                vstd::arithmetic::div_mod::lemma_div_is_ordered(p.x - min_x, max_x - min_x, cell_size as int);
                vstd::arithmetic::div_mod::lemma_div_is_ordered(p.y - min_y, max_y - min_y, cell_size as int);
            }
            index.lemma_buckets_exact();
        }
        index
    }

    /// The indices held by every cell that the box
    /// `[min_x, max_x] x [min_y, max_y]` overlaps: each indexed point inside the
    /// box is among them, and others may be.
    pub fn query_bbox(&self, min_x: i32, min_y: i32, max_x: i32, max_y: i32) -> (r: Vec<usize>)
        requires
            self.wf(),
        ensures
            forall|j: int| 0 <= j < r@.len() ==> #[trigger] r@[j] < self.points().len(),
            forall|j: int|
                0 <= j < r@.len() ==> self.cell_in(
                    #[trigger] r@[j] as int,
                    cell_coord(min_x as int, self.spec_origin_x(), self.spec_cell_size()),
                    cell_coord(max_x as int, self.spec_origin_x(), self.spec_cell_size()),
                    cell_coord(min_y as int, self.spec_origin_y(), self.spec_cell_size()),
                    cell_coord(max_y as int, self.spec_origin_y(), self.spec_cell_size()),
                ),
            forall|i: int|
                0 <= i < self.points().len() && in_bbox(
                    #[trigger] self.points()[i],
                    BoundingBox { min_x, min_y, max_x, max_y },
                ) ==> r@.contains(i as usize),
    {
        let ghost q = BoundingBox { min_x, min_y, max_x, max_y };
        let ghost pts = self.indexed@;
        let ghost cs = self.cell_size as int;
        let ghost ox = self.origin_x as int;
        let ghost oy = self.origin_y as int;
        proof {
            self.lemma_coord_bounds(min_x as int, ox);
            self.lemma_coord_bounds(max_x as int, ox);
            self.lemma_coord_bounds(min_y as int, oy);
            self.lemma_coord_bounds(max_y as int, oy);
        }
        let mut c_lo: i64 = floor_div(min_x as i64 - self.origin_x as i64, self.cell_size);
        let mut c_hi: i64 = floor_div(max_x as i64 - self.origin_x as i64, self.cell_size);
        let mut r_lo: i64 = floor_div(min_y as i64 - self.origin_y as i64, self.cell_size);
        let mut r_hi: i64 = floor_div(max_y as i64 - self.origin_y as i64, self.cell_size);
        if c_lo < 0 {
            c_lo = 0;
        }
        if r_lo < 0 {
            r_lo = 0;
        }
        if c_hi > self.cols - 1 {
            c_hi = self.cols - 1;
        }
        if r_hi > self.rows - 1 {
            r_hi = self.rows - 1;
        }
        proof {
            assert forall|i: int| 0 <= i < pts.len() && in_bbox(#[trigger] pts[i], q) implies {
                let c = cell_coord(pts[i].x as int, ox, cs);
                let r = cell_coord(pts[i].y as int, oy, cs);
                c_lo <= c <= c_hi && r_lo <= r <= r_hi
            } by {
                let p = pts[i];
                vstd::arithmetic::div_mod::lemma_div_is_ordered(min_x - ox, p.x - ox, cs);
                vstd::arithmetic::div_mod::lemma_div_is_ordered(p.x - ox, max_x - ox, cs);
                vstd::arithmetic::div_mod::lemma_div_is_ordered(min_y - oy, p.y - oy, cs);
                vstd::arithmetic::div_mod::lemma_div_is_ordered(p.y - oy, max_y - oy, cs);
            }
        }
        let mut result: Vec<usize> = Vec::new();
        let mut col: i64 = c_lo;
        while col <= c_hi
            invariant
                self.wf(),
                pts == self.indexed@,
                cs == self.cell_size as int,
                ox == self.origin_x as int,
                oy == self.origin_y as int,
                c_lo <= col <= c_hi + 1 || col == c_lo,
                c_hi < KEY_SPAN,
                0 <= c_lo,
                0 <= r_lo,
                r_hi < KEY_SPAN,
                forall|j: int|
                    0 <= j < result@.len() ==> #[trigger] result@[j] < pts.len() && self.cell_in(
                        result@[j] as int,
                        c_lo as int,
                        c_hi as int,
                        r_lo as int,
                        r_hi as int,
                    ),
                forall|i: int|
                    0 <= i < pts.len() && in_bbox(#[trigger] pts[i], q) ==> {
                        let c = cell_coord(pts[i].x as int, ox, cs);
                        let r = cell_coord(pts[i].y as int, oy, cs);
                        c_lo <= c <= c_hi && r_lo <= r <= r_hi
                    },
                forall|i: int|
                    0 <= i < pts.len() && in_bbox(#[trigger] pts[i], q) && cell_coord(
                        pts[i].x as int,
                        ox,
                        cs,
                    ) < col ==> result@.contains(i as usize),
            decreases c_hi + 1 - col,
        {
            let mut row: i64 = r_lo;
            while row <= r_hi
                invariant
                    self.wf(),
                    pts == self.indexed@,
                    cs == self.cell_size as int,
                    ox == self.origin_x as int,
                    oy == self.origin_y as int,
                    c_lo <= col <= c_hi,
                    r_lo <= row <= r_hi + 1 || row == r_lo,
                    c_hi < KEY_SPAN,
                    0 <= c_lo,
                    0 <= r_lo,
                    r_hi < KEY_SPAN,
                    forall|j: int|
                    0 <= j < result@.len() ==> #[trigger] result@[j] < pts.len() && self.cell_in(
                        result@[j] as int,
                        c_lo as int,
                        c_hi as int,
                        r_lo as int,
                        r_hi as int,
                    ),
                    forall|i: int|
                        0 <= i < pts.len() && in_bbox(#[trigger] pts[i], q) ==> {
                            let c = cell_coord(pts[i].x as int, ox, cs);
                            let r = cell_coord(pts[i].y as int, oy, cs);
                            c_lo <= c <= c_hi && r_lo <= r <= r_hi
                        },
                    forall|i: int|
                        0 <= i < pts.len() && in_bbox(#[trigger] pts[i], q) && (cell_coord(
                            pts[i].x as int,
                            ox,
                            cs,
                        ) < col || (cell_coord(pts[i].x as int, ox, cs) == col && cell_coord(
                            pts[i].y as int,
                            oy,
                            cs,
                        ) < row)) ==> result@.contains(i as usize),
                decreases r_hi + 1 - row,
            {
                proof {
                    assert(col * KEY_SPAN + row < KEY_SPAN * KEY_SPAN) by (nonlinear_arith)
                        requires
                            0 <= col < KEY_SPAN,
                            0 <= row < KEY_SPAN,
                    ;
                    assert(col * KEY_SPAN + row >= 0) by (nonlinear_arith)
                        requires
                            0 <= col,
                            0 <= row,
                    ;
                }
                let bucket: u64 = col as u64 * KEY_SPAN + row as u64;
                assert(bucket == bucket_of(col as int, row as int));
                match self.cells.get(&bucket) {
                    Some(v) => {
                        let ghost before = result@;
                        append_indices(&mut result, v);
                        proof {
                            assert forall|j: int| 0 <= j < result@.len() implies #[trigger] result@[j]
                                < pts.len() && self.cell_in(
                                result@[j] as int,
                                c_lo as int,
                                c_hi as int,
                                r_lo as int,
                                r_hi as int,
                            ) by {
                                if j >= before.len() {
                                    let t = v@[j - before.len()];
                                    assert(result@[j] == t);
                                    assert(self.cells@[bucket]@[j - before.len()] == t);
                                    assert(self.indexed@[t as int] == self.points()[t as int]);
                                    lemma_bucket_injective(
                                        col as int,
                                        row as int,
                                        self.cell_col(t as int),
                                        self.cell_row(t as int),
                                    );
                                }
                            }
                            assert forall|i: int|
                                0 <= i < pts.len() && in_bbox(#[trigger] pts[i], q) && (cell_coord(
                                    pts[i].x as int,
                                    ox,
                                    cs,
                                ) < col || (cell_coord(pts[i].x as int, ox, cs) == col && cell_coord(
                                    pts[i].y as int,
                                    oy,
                                    cs,
                                ) < row + 1)) implies result@.contains(i as usize) by {
                                if cell_coord(pts[i].x as int, ox, cs) == col && cell_coord(
                                    pts[i].y as int,
                                    oy,
                                    cs,
                                ) == row {
                                    let t = choose|t: int| 0 <= t < v@.len() && v@[t] == i as usize;
                                    assert(result@[before.len() + t] == i as usize);
                                } else {
                                    let t = choose|t: int| 0 <= t < before.len() && before[t] == i as usize;
                                    assert(result@[t] == i as usize);
                                }
                            }
                        }
                    },
                    None => {},
                }
                row += 1;
            }
            col += 1;
        }
        proof {
            assert(c_lo >= cell_coord(min_x as int, ox, cs) && c_hi <= cell_coord(max_x as int, ox, cs));
            assert(r_lo >= cell_coord(min_y as int, oy, cs) && r_hi <= cell_coord(max_y as int, oy, cs));
        }
        result
    }
}

} // verus!
