//! Exact box filtering of a point set, through a spatial index when the set is
//! large enough for one to pay off.
use vstd::prelude::*;
use crate::geometry::{BoundingBox, LidarPoint, in_bbox, points_in, filter_points_linear};
use crate::spatial_grid::SpatialGridIndex;
use crate::quadtree::QuadtreeSpatialIndex;

verus! {

/// Below this many points a linear scan is used.
pub const LINEAR_SCAN_LIMIT: usize = 10_000;

/// Below this many points the grid is used whatever the selectivity.
pub const GRID_POINT_LIMIT: usize = 100_000;

/// Smallest grid cell side, in centimetres.
pub const MIN_CELL_SIZE: i64 = 1000;

/// The grid aims at this many cells along the longer side of the extent.
pub const CELLS_PER_EXTENT: i64 = 100;

/// How a box query over a point set is answered.
#[derive(Clone, Copy, Debug, PartialEq, Eq, Structural)]
pub enum IndexChoice {
    LinearScan,
    Grid { cell_size: i64 },
    Quadtree,
}

pub open spec fn extend(e: Option<BoundingBox>, p: LidarPoint) -> Option<BoundingBox> {
    match e {
        None => Some(BoundingBox { min_x: p.x, min_y: p.y, max_x: p.x, max_y: p.y }),
        Some(b) => Some(
            BoundingBox {
                min_x: if p.x < b.min_x { p.x } else { b.min_x },
                min_y: if p.y < b.min_y { p.y } else { b.min_y },
                max_x: if p.x > b.max_x { p.x } else { b.max_x },
                max_y: if p.y > b.max_y { p.y } else { b.max_y },
            },
        ),
    }
}

pub open spec fn merge(a: Option<BoundingBox>, b: Option<BoundingBox>) -> Option<BoundingBox> {
    match (a, b) {
        (None, _) => b,
        (_, None) => a,
        (Some(x), Some(y)) => Some(
            BoundingBox {
                min_x: if y.min_x < x.min_x { y.min_x } else { x.min_x },
                min_y: if y.min_y < x.min_y { y.min_y } else { x.min_y },
                max_x: if y.max_x > x.max_x { y.max_x } else { x.max_x },
                max_y: if y.max_y > x.max_y { y.max_y } else { x.max_y },
            },
        ),
    }
}

/// Extent of the points `s[i], s[i + step], s[i + 2 * step], ...`.
pub open spec fn sample_from(s: Seq<LidarPoint>, step: int, i: int) -> Option<BoundingBox>
    decreases (if i < s.len() { s.len() - i } else { 0 }),
    when step > 0
{
    if i >= s.len() || i < 0 {
        None
    } else {
        extend(sample_from(s, step, i + step), s[i])
    }
}

/// Distance between sampled points: about one point in a hundred, at least
/// a hundred points.
pub open spec fn sample_step(n: int) -> int {
    let wanted = if n / 100 > 100 { n / 100 } else { 100 };
    let size = if wanted < n { wanted } else { n };
    if size > 0 && n / size > 1 {
        n / size
    } else {
        1
    }
}

pub open spec fn area(min_x: int, min_y: int, max_x: int, max_y: int) -> int {
    (max_x - min_x) * (max_y - min_y)
}

/// Whether the query covers more than half of the sampled extent; an extent
/// of no area counts as fully covered.
pub open spec fn unselective(q: BoundingBox, e: BoundingBox) -> bool {
    let data = area(e.min_x as int, e.min_y as int, e.max_x as int, e.max_y as int);
    data <= 0 || 2 * area(q.min_x as int, q.min_y as int, q.max_x as int, q.max_y as int) > data
}

pub open spec fn cell_size_for(e: BoundingBox) -> int {
    let cx = (e.max_x - e.min_x) / CELLS_PER_EXTENT as int;
    let cy = (e.max_y - e.min_y) / CELLS_PER_EXTENT as int;
    let c = if cx > cy { cx } else { cy };
    if c > MIN_CELL_SIZE { c } else { MIN_CELL_SIZE as int }
}

/// The strategy for a query `q` over `s`.
pub open spec fn index_choice(s: Seq<LidarPoint>, q: BoundingBox) -> IndexChoice {
    if s.len() < LINEAR_SCAN_LIMIT {
        IndexChoice::LinearScan
    } else {
        let e = sample_from(s, sample_step(s.len() as int), 0)->Some_0;
        if unselective(q, e) || s.len() < GRID_POINT_LIMIT {
            IndexChoice::Grid { cell_size: cell_size_for(e) as i64 }
        } else {
            IndexChoice::Quadtree
        }
    }
}

proof fn lemma_merge_extend(a: Option<BoundingBox>, r: Option<BoundingBox>, p: LidarPoint)
    ensures
        merge(a, extend(r, p)) == merge(extend(a, p), r),
        merge(a, None) == a,
{
}

proof fn lemma_sample_nonempty(s: Seq<LidarPoint>, step: int)
    requires
        step > 0,
        s.len() > 0,
    ensures
        sample_from(s, step, 0) is Some,
{
}

fn area_of(min_x: i32, min_y: i32, max_x: i32, max_y: i32) -> (r: i128)
    ensures
        r == area(min_x as int, min_y as int, max_x as int, max_y as int),
        -0x10_0000_0000_0000_0000 < r < 0x10_0000_0000_0000_0000,
{
    let w: i128 = max_x as i128 - min_x as i128;
    let h: i128 = max_y as i128 - min_y as i128;
    assert(-0x10_0000_0000_0000_0000 < w * h < 0x10_0000_0000_0000_0000) by (nonlinear_arith)
        requires
            -0x1_0000_0000 < w < 0x1_0000_0000,
            -0x1_0000_0000 < h < 0x1_0000_0000,
    ;
    w * h
}

/// Extent of the sampled points `points[0], points[step], ...`.
fn sampled_extent(points: &[LidarPoint], step: usize) -> (r: Option<BoundingBox>)
    requires
        step > 0,
    ensures
        r == sample_from(points@, step as int, 0),
{
    let n = points.len();
    let mut acc: Option<BoundingBox> = None;
    let mut i: usize = 0;
    while i < n
        invariant
            step > 0,
            n == points@.len(),
            merge(acc, sample_from(points@, step as int, i as int)) == sample_from(points@, step as int, 0),
        decreases n - i,
    {
        let p = points[i];
        proof {
            lemma_merge_extend(acc, sample_from(points@, step as int, i + step), p);
        }
        acc = match acc {
            None => Some(BoundingBox { min_x: p.x, min_y: p.y, max_x: p.x, max_y: p.y }),
            Some(b) => Some(
                BoundingBox {
                    min_x: if p.x < b.min_x { p.x } else { b.min_x },
                    min_y: if p.y < b.min_y { p.y } else { b.min_y },
                    max_x: if p.x > b.max_x { p.x } else { b.max_x },
                    max_y: if p.y > b.max_y { p.y } else { b.max_y },
                },
            ),
        };
        if n - i <= step {
            i = n;
        } else {
            i = i + step;
        }
    }
    proof {
        lemma_merge_extend(acc, None, points@[0]);
    }
    acc
}

/// Picks how to answer the query `q` over `points`: a linear scan for small
/// sets; else, from the extent of a sample, the grid when the query covers
/// more than half of it or the set is moderate, the quadtree otherwise.
pub fn choose_index(points: &[LidarPoint], q: &BoundingBox) -> (r: IndexChoice)
    ensures
        r == index_choice(points@, *q),
        r matches IndexChoice::Grid { cell_size } ==> cell_size >= MIN_CELL_SIZE,
{
    let n = points.len();
    if n < LINEAR_SCAN_LIMIT {
        return IndexChoice::LinearScan;
    }
    let wanted: usize = if n / 100 > 100 { n / 100 } else { 100 };
    let size: usize = if wanted < n { wanted } else { n };
    let step: usize = if size > 0 && n / size > 1 { n / size } else { 1 };
    proof {
        lemma_sample_nonempty(points@, step as int);
    }
    let e = match sampled_extent(points, step) {
        Some(b) => b,
        None => BoundingBox { min_x: 0, min_y: 0, max_x: 0, max_y: 0 },
    };
    let data: i128 = area_of(e.min_x, e.min_y, e.max_x, e.max_y);
    let query: i128 = area_of(q.min_x, q.min_y, q.max_x, q.max_y);
    let broad = data <= 0 || 2 * query > data;
    if broad || n < GRID_POINT_LIMIT {
        let cx: i64 = (e.max_x as i64 - e.min_x as i64) / CELLS_PER_EXTENT;
        let cy: i64 = (e.max_y as i64 - e.min_y as i64) / CELLS_PER_EXTENT;
        let c: i64 = if cx > cy { cx } else { cy };
        IndexChoice::Grid { cell_size: if c > MIN_CELL_SIZE { c } else { MIN_CELL_SIZE } }
    } else {
        IndexChoice::Quadtree
    }
}

/// Keeps, in order, the points of `points` in `q` whose index is among
/// `candidates`, which must include every index of a point in `q`.
fn select_candidates(points: &[LidarPoint], candidates: &Vec<usize>, q: &BoundingBox) -> (r: Vec<LidarPoint>)
    requires
        forall|j: int| 0 <= j < candidates@.len() ==> #[trigger] candidates@[j] < points@.len(),
        forall|i: int|
            0 <= i < points@.len() && in_bbox(#[trigger] points@[i], *q) ==> candidates@.contains(
                i as usize,
            ),
    ensures
        r@ == points_in(points@, *q),
{
    let n = points.len();
    let mut marked: Vec<bool> = Vec::new();
    let mut i: usize = 0;
    while i < n
        invariant
            i <= n,
            marked@.len() == i,
            forall|j: int| 0 <= j < i ==> !#[trigger] marked@[j],
        decreases n - i,
    {
        marked.push(false);
        i += 1;
    }
    let mut k: usize = 0;
    while k < candidates.len()
        invariant
            k <= candidates@.len(),
            marked@.len() == n,
            n == points@.len(),
            forall|j: int| 0 <= j < candidates@.len() ==> #[trigger] candidates@[j] < n,
            forall|t: int| 0 <= t < k ==> #[trigger] marked@[candidates@[t] as int],
        decreases candidates@.len() - k,
    {
        let c = candidates[k];
        marked.set(c, true);
        k += 1;
    }
    let mut out: Vec<LidarPoint> = Vec::new();
    let mut i: usize = 0;
    while i < n
        invariant
            i <= n,
            n == points@.len(),
            marked@.len() == n,
            forall|j: int| 0 <= j < n && in_bbox(#[trigger] points@[j], *q) ==> marked@[j],
            out@ == points_in(points@.take(i as int), *q),
        decreases n - i,
    {
        let p = points[i];
        assert(points@.take(i + 1).drop_last() =~= points@.take(i as int));
        if marked[i] && q.contains_xy(p.x, p.y) {
            out.push(p);
        }
        i += 1;
    }
    assert(points@.take(n as int) =~= points@);
    out
}

/// The points of `points` inside `[x_min, x_max] x [y_min, y_max]`, in their
/// order, whichever strategy [`choose_index`] picks.
pub fn filter_points_with_spatial_index(
    points: &[LidarPoint],
    x_min: i32,
    y_min: i32,
    x_max: i32,
    y_max: i32,
) -> (r: Vec<LidarPoint>)
    ensures
        r@ == points_in(points@, BoundingBox { min_x: x_min, min_y: y_min, max_x: x_max, max_y: y_max }),
{
    let q = BoundingBox { min_x: x_min, min_y: y_min, max_x: x_max, max_y: y_max };
    match choose_index(points, &q) {
        IndexChoice::LinearScan => filter_points_linear(points, &q),
        IndexChoice::Grid { cell_size } => {
            let grid = SpatialGridIndex::build_from_points(points, cell_size);
            let candidates = grid.query_bbox(x_min, y_min, x_max, y_max);
            select_candidates(points, &candidates, &q)
        },
        IndexChoice::Quadtree => {
            let tree = QuadtreeSpatialIndex::build(points);
            let candidates = tree.query_bbox(x_min, y_min, x_max, y_max);
            select_candidates(points, &candidates, &q)
        },
    }
}

} // verus!
