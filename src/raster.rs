//! Turning a point set into surface, terrain and canopy grids.
//!
//! Grids are stored row-major: the cell at `(row, col)` is element
//! `row * width + col`; rows run from the box's top edge downwards.
use vstd::prelude::*;
use crate::geometry::{BoundingBox, LidarPoint, in_bbox, ceil_div, floor_div};

verus! {

/// The classification code of ground returns.
pub const GROUND_CLASS: u8 = 2;

/// The three grids of one run, with their shape and georeferencing.
pub struct ProcessedRasters {
    /// Highest point per cell; `None` where no point fell.
    pub dsm: Vec<Option<i32>>,
    /// Highest ground point per cell, gaps filled from the neighbours.
    pub dtm: Vec<i32>,
    /// Surface minus terrain where the surface is known, never negative.
    pub chm: Vec<i64>,
    pub width: usize,
    pub height: usize,
    /// `[x_origin, resolution, 0, y_origin, 0, -resolution]`.
    pub transform: [i64; 6],
}

#[derive(Clone, Copy, Debug, PartialEq, Eq, Structural)]
pub enum RasterError {
    /// The box's minimum corner exceeds its maximum corner.
    InvalidBoundingBox,
    /// The resolution is zero.
    InvalidResolution,
    /// `width * height` cells cannot be addressed on this machine.
    GridTooLarge,
}

pub open spec fn grid_width(b: BoundingBox, res: int) -> int {
    ceil_div(b.max_x - b.min_x, res)
}

pub open spec fn grid_height(b: BoundingBox, res: int) -> int {
    ceil_div(b.max_y - b.min_y, res)
}

pub open spec fn col_of(p: LidarPoint, b: BoundingBox, res: int) -> int {
    (p.x - b.min_x) / res
}

pub open spec fn row_of(p: LidarPoint, b: BoundingBox, res: int) -> int {
    (b.max_y - p.y) / res
}

pub open spec fn class_allowed_spec(classes: Option<Seq<u8>>, c: u8) -> bool {
    match classes {
        Some(list) => list.contains(c),
        None => true,
    }
}

pub open spec fn opt_view(classes: Option<Vec<u8>>) -> Option<Seq<u8>> {
    match classes {
        Some(v) => Some(v@),
        None => None,
    }
}

/// Whether `p` contributes to cell `(row, col)`.
pub open spec fn lands_in(
    p: LidarPoint,
    b: BoundingBox,
    classes: Option<Seq<u8>>,
    res: int,
    row: int,
    col: int,
) -> bool {
    in_bbox(p, b) && class_allowed_spec(classes, p.classification) && row_of(p, b, res) == row
        && col_of(p, b, res) == col
}

pub open spec fn max_opt(a: Option<i32>, z: i32) -> Option<i32> {
    match a {
        Some(v) => if z > v { Some(z) } else { Some(v) },
        None => Some(z),
    }
}

/// The highest `z` among the points of `s` that land in `(row, col)`.
pub open spec fn surface_at(
    s: Seq<LidarPoint>,
    b: BoundingBox,
    classes: Option<Seq<u8>>,
    res: int,
    row: int,
    col: int,
) -> Option<i32>
    decreases s.len(),
{
    if s.len() == 0 {
        None
    } else {
        let r = surface_at(s.drop_last(), b, classes, res, row, col);
        if lands_in(s.last(), b, classes, res, row, col) {
            max_opt(r, s.last().z)
        } else {
            r
        }
    }
}

/// The highest `z` among the ground points of `s` that land in `(row, col)`.
pub open spec fn terrain_at(
    s: Seq<LidarPoint>,
    b: BoundingBox,
    classes: Option<Seq<u8>>,
    res: int,
    row: int,
    col: int,
) -> Option<i32>
    decreases s.len(),
{
    if s.len() == 0 {
        None
    } else {
        let r = terrain_at(s.drop_last(), b, classes, res, row, col);
        if lands_in(s.last(), b, classes, res, row, col) && s.last().classification == GROUND_CLASS {
            max_opt(r, s.last().z)
        } else {
            r
        }
    }
}

pub open spec fn surface_grid(
    s: Seq<LidarPoint>,
    b: BoundingBox,
    classes: Option<Seq<u8>>,
    res: int,
    w: int,
    h: int,
) -> Seq<Option<i32>> {
    Seq::new((w * h) as nat, |k: int| surface_at(s, b, classes, res, k / w, k % w))
}

pub open spec fn terrain_grid(
    s: Seq<LidarPoint>,
    b: BoundingBox,
    classes: Option<Seq<u8>>,
    res: int,
    w: int,
    h: int,
) -> Seq<Option<i32>> {
    Seq::new((w * h) as nat, |k: int| terrain_at(s, b, classes, res, k / w, k % w))
}

/// The cell `(r, c)` of a `w` by `h` grid, `None` outside it.
pub open spec fn cell_or_none(g: Seq<Option<i32>>, w: int, h: int, r: int, c: int) -> Option<i32> {
    if 0 <= r < h && 0 <= c < w {
        g[r * w + c]
    } else {
        None
    }
}

pub open spec fn min_opt(a: Option<i32>, b: Option<i32>) -> Option<i32> {
    match (a, b) {
        (Some(x), Some(y)) => if y < x { Some(y) } else { Some(x) },
        (Some(x), None) => Some(x),
        (None, _) => b,
    }
}

/// The lowest known value among the eight cells around `(r, c)`.
pub open spec fn neighbour_min(g: Seq<Option<i32>>, w: int, h: int, r: int, c: int) -> Option<i32> {
    min_opt(
        min_opt(
            min_opt(cell_or_none(g, w, h, r - 1, c - 1), cell_or_none(g, w, h, r - 1, c)),
            min_opt(cell_or_none(g, w, h, r - 1, c + 1), cell_or_none(g, w, h, r, c - 1)),
        ),
        min_opt(
            min_opt(cell_or_none(g, w, h, r, c + 1), cell_or_none(g, w, h, r + 1, c - 1)),
            min_opt(cell_or_none(g, w, h, r + 1, c), cell_or_none(g, w, h, r + 1, c + 1)),
        ),
    )
}

/// A cell after one pass of gap filling: its own value, else the lowest
/// neighbour, else zero.
pub open spec fn filled_at(g: Seq<Option<i32>>, w: int, h: int, r: int, c: int) -> i32 {
    match g[r * w + c] {
        Some(v) => v,
        None => match neighbour_min(g, w, h, r, c) {
            Some(m) => m,
            None => 0,
        },
    }
}

pub open spec fn filled_grid(g: Seq<Option<i32>>, w: int, h: int) -> Seq<i32> {
    Seq::new((w * h) as nat, |k: int| filled_at(g, w, h, k / w, k % w))
}

/// Canopy height of one cell.
pub open spec fn canopy_at(surface: Option<i32>, terrain: i32) -> i64 {
    match surface {
        Some(s) => if s - terrain >= 0 { (s - terrain) as i64 } else { 0 },
        None => 0,
    }
}

pub open spec fn canopy_grid(dsm: Seq<Option<i32>>, dtm: Seq<i32>) -> Seq<i64> {
    Seq::new(dsm.len(), |k: int| canopy_at(dsm[k], dtm[k]))
}

/// What a successful rasterization of `s` returns.
pub open spec fn rasterized(
    s: Seq<LidarPoint>,
    b: BoundingBox,
    classes: Option<Seq<u8>>,
    res: int,
    r: ProcessedRasters,
) -> bool {
    let w = grid_width(b, res);
    let h = grid_height(b, res);
    &&& r.width == w
    &&& r.height == h
    &&& r.dsm@ == surface_grid(s, b, classes, res, w, h)
    &&& r.dtm@ == filled_grid(terrain_grid(s, b, classes, res, w, h), w, h)
    &&& r.chm@ == canopy_grid(r.dsm@, r.dtm@)
    &&& r.transform@ == seq![b.min_x as i64, res as i64, 0i64, b.max_y as i64, 0i64, -res as i64]
}

proof fn lemma_cell_index(w: int, h: int, r: int, c: int)
    requires
        0 <= r < h,
        0 <= c < w,
    ensures
        0 <= r * w + c < w * h,
        (r * w + c) / w == r,
        (r * w + c) % w == c,
{
    assert(0 <= r * w + c < w * h) by (nonlinear_arith)
        requires
            0 <= r < h,
            0 <= c < w,
    ;
    vstd::arithmetic::div_mod::lemma_fundamental_div_mod_converse(r * w + c, w, r, c);
}

proof fn lemma_index_cell(w: int, h: int, k: int)
    requires
        0 <= k < w * h,
        w > 0,
    ensures
        0 <= k / w < h,
        0 <= k % w < w,
        k == (k / w) * w + k % w,
{
    vstd::arithmetic::div_mod::lemma_fundamental_div_mod(k, w);
    vstd::arithmetic::div_mod::lemma_mod_bound(k, w);
    vstd::arithmetic::div_mod::lemma_div_pos_is_pos(k, w);
    vstd::arithmetic::mul::lemma_mul_is_commutative(w, k / w);
    assert(k / w < h) by (nonlinear_arith)
        requires
            k == w * (k / w) + k % w,
            0 <= k % w,
            k < w * h,
            w > 0,
    ;
}

proof fn lemma_step(
    prev: Seq<LidarPoint>,
    p: LidarPoint,
    b: BoundingBox,
    classes: Option<Seq<u8>>,
    res: int,
    row: int,
    col: int,
)
    ensures
        surface_at(prev.push(p), b, classes, res, row, col) == if lands_in(p, b, classes, res, row, col) {
            max_opt(surface_at(prev, b, classes, res, row, col), p.z)
        } else {
            surface_at(prev, b, classes, res, row, col)
        },
        terrain_at(prev.push(p), b, classes, res, row, col) == if lands_in(p, b, classes, res, row, col)
            && p.classification == GROUND_CLASS {
            max_opt(terrain_at(prev, b, classes, res, row, col), p.z)
        } else {
            terrain_at(prev, b, classes, res, row, col)
        },
{
    assert(prev.push(p).drop_last() =~= prev);
}

/// Whether the allow-list admits the code `c`; with no list every code passes.
pub fn class_allowed(classes: &Option<Vec<u8>>, c: u8) -> (r: bool)
    ensures
        r == class_allowed_spec(opt_view(*classes), c),
{
    match classes {
        None => true,
        Some(list) => {
            let mut i: usize = 0;
            while i < list.len()
                invariant
                    i <= list.len(),
                    opt_view(*classes) == Some(list@),
                    forall|j: int| 0 <= j < i ==> list@[j] != c,
                decreases list.len() - i,
            {
                if list[i] == c {
                    assert(list@[i as int] == c);
                    return true;
                }
                i += 1;
            }
            false
        },
    }
}

fn max_cell(a: Option<i32>, z: i32) -> (r: Option<i32>)
    ensures
        r == max_opt(a, z),
{
    match a {
        Some(v) => if z > v { Some(z) } else { Some(v) },
        None => Some(z),
    }
}

fn min_cell(a: Option<i32>, b: Option<i32>) -> (r: Option<i32>)
    ensures
        r == min_opt(a, b),
{
    match (a, b) {
        (Some(x), Some(y)) => if y < x { Some(y) } else { Some(x) },
        (Some(x), None) => Some(x),
        (None, _) => b,
    }
}

/// Fills the surface and terrain grids of a `w` by `h` raster in one pass over
/// the points.
pub fn build_surface_grids(
    points: &[LidarPoint],
    b: &BoundingBox,
    classes: &Option<Vec<u8>>,
    res: u32,
    w: usize,
    h: usize,
) -> (r: (Vec<Option<i32>>, Vec<Option<i32>>))
    requires
        res > 0,
        w * h <= usize::MAX,
    ensures
        r.0@ == surface_grid(points@, *b, opt_view(*classes), res as int, w as int, h as int),
        r.1@ == terrain_grid(points@, *b, opt_view(*classes), res as int, w as int, h as int),
{
    let n: usize = w * h;
    let ghost cls = opt_view(*classes);
    let ghost resi = res as int;
    let mut dsm: Vec<Option<i32>> = Vec::new();
    let mut dtm: Vec<Option<i32>> = Vec::new();
    let mut k: usize = 0;
    while k < n
        invariant
            k <= n,
            n == w * h,
            dsm@.len() == k,
            dtm@.len() == k,
            forall|j: int| 0 <= j < k ==> dsm@[j] == None::<i32> && dtm@[j] == None::<i32>,
        decreases n - k,
    {
        dsm.push(None);
        dtm.push(None);
        k += 1;
    }
    let mut i: usize = 0;
    while i < points.len()
        invariant
            i <= points.len(),
            n == w * h,
            res > 0,
            resi == res as int,
            cls == opt_view(*classes),
            dsm@.len() == n,
            dtm@.len() == n,
            forall|j: int|
                0 <= j < n ==> #[trigger] dsm@[j] == surface_at(
                    points@.take(i as int),
                    *b,
                    cls,
                    resi,
                    j / (w as int),
                    j % (w as int),
                ),
            forall|j: int|
                0 <= j < n ==> #[trigger] dtm@[j] == terrain_at(
                    points@.take(i as int),
                    *b,
                    cls,
                    resi,
                    j / (w as int),
                    j % (w as int),
                ),
        decreases points.len() - i,
    {
        let p = points[i];
        let ghost prev = points@.take(i as int);
        let ghost next = points@.take(i + 1);
        let ghost old_dsm = dsm@;
        let ghost old_dtm = dtm@;
        assert(next =~= prev.push(p));
        if b.contains_xy(p.x, p.y) && class_allowed(classes, p.classification) {
            let col: i64 = floor_div(p.x as i64 - b.min_x as i64, res as i64);
            let row: i64 = floor_div(b.max_y as i64 - p.y as i64, res as i64);
            if (col as i128) < (w as i128) && (row as i128) < (h as i128) {
                proof {
                    lemma_cell_index(w as int, h as int, row as int, col as int);
                    assert(row as int == row_of(p, *b, resi));
                    assert(col as int == col_of(p, *b, resi));
                    assert(in_bbox(p, *b));
                    assert(class_allowed_spec(cls, p.classification));
                }
                let idx: usize = row as usize * w + col as usize;
                let ds = max_cell(dsm[idx], p.z);
                dsm.set(idx, ds);
                if p.classification == GROUND_CLASS {
                    let dt = max_cell(dtm[idx], p.z);
                    dtm.set(idx, dt);
                }
                proof {
                    assert forall|j: int| 0 <= j < n implies #[trigger] lands_in(
                        p,
                        *b,
                        cls,
                        resi,
                        j / (w as int),
                        j % (w as int),
                    ) == (j == idx) by {
                        lemma_index_cell(w as int, h as int, j);
                    }
                }
            } else {
                proof {
                    assert forall|j: int| 0 <= j < n implies !#[trigger] lands_in(
                        p,
                        *b,
                        cls,
                        resi,
                        j / (w as int),
                        j % (w as int),
                    ) by {
                        lemma_index_cell(w as int, h as int, j);
                    }
                }
            }
        }
        proof {
            assert forall|j: int| 0 <= j < n implies #[trigger] dsm@[j] == surface_at(
                next,
                *b,
                cls,
                resi,
                j / (w as int),
                j % (w as int),
            ) by {
                lemma_step(prev, p, *b, cls, resi, j / (w as int), j % (w as int));
                assert(old_dsm[j] == surface_at(prev, *b, cls, resi, j / (w as int), j % (w as int)));
            }
            assert forall|j: int| 0 <= j < n implies #[trigger] dtm@[j] == terrain_at(
                next,
                *b,
                cls,
                resi,
                j / (w as int),
                j % (w as int),
            ) by {
                lemma_step(prev, p, *b, cls, resi, j / (w as int), j % (w as int));
                assert(old_dtm[j] == terrain_at(prev, *b, cls, resi, j / (w as int), j % (w as int)));
            }
        }
        i += 1;
    }
    assert(points@.take(points.len() as int) =~= points@);
    assert(dsm@ =~= surface_grid(points@, *b, cls, resi, w as int, h as int));
    assert(dtm@ =~= terrain_grid(points@, *b, cls, resi, w as int, h as int));
    (dsm, dtm)
}


/// The cell `(r + dr, c + dc)` of a `w` by `h` grid, `None` outside it.
fn neighbour(g: &[Option<i32>], w: usize, h: usize, r: usize, c: usize, dr: i8, dc: i8) -> (v: Option<i32>)
    requires
        g@.len() == w * h,
        w * h <= usize::MAX,
        -1 <= dr <= 1,
        -1 <= dc <= 1,
        r < h,
        c < w,
    ensures
        v == cell_or_none(g@, w as int, h as int, r + dr, c + dc),
{
    let rr: i128 = r as i128 + dr as i128;
    let cc: i128 = c as i128 + dc as i128;
    if 0 <= rr && rr < h as i128 && 0 <= cc && cc < w as i128 {
        proof {
            lemma_cell_index(w as int, h as int, rr as int, cc as int);
        }
        g[rr as usize * w + cc as usize]
    } else {
        None
    }
}

/// Gives every empty cell of a `w` by `h` terrain grid the lowest value among
/// its eight neighbours, or zero where none is known. One pass: neighbours are
/// read from the grid as it was before filling.
pub fn fill_terrain_gaps(g: &[Option<i32>], w: usize, h: usize) -> (r: Vec<i32>)
    requires
        g@.len() == w * h,
    ensures
        r@ == filled_grid(g@, w as int, h as int),
{
    let n: usize = g.len();
    let mut out: Vec<i32> = Vec::new();
    let mut k: usize = 0;
    while k < n
        invariant
            k <= n,
            n == w * h,
            n <= usize::MAX,
            g@.len() == n,
            out@.len() == k,
            forall|j: int| 0 <= j < k ==> #[trigger] out@[j] == filled_at(
                g@,
                w as int,
                h as int,
                j / (w as int),
                j % (w as int),
            ),
        decreases n - k,
    {
        proof {
            vstd::arithmetic::mul::lemma_mul_is_commutative(w as int, h as int);
            if w == 0 {
                assert(w * h == 0);
            }
            lemma_index_cell(w as int, h as int, k as int);
        }
        let row: usize = k / w;
        let col: usize = k % w;
        let v: i32 = match g[k] {
            Some(x) => x,
            None => {
                let a = min_cell(neighbour(g, w, h, row, col, -1, -1), neighbour(g, w, h, row, col, -1, 0));
                let b = min_cell(neighbour(g, w, h, row, col, -1, 1), neighbour(g, w, h, row, col, 0, -1));
                let c = min_cell(neighbour(g, w, h, row, col, 0, 1), neighbour(g, w, h, row, col, 1, -1));
                let d = min_cell(neighbour(g, w, h, row, col, 1, 0), neighbour(g, w, h, row, col, 1, 1));
                match min_cell(min_cell(a, b), min_cell(c, d)) {
                    Some(m) => m,
                    None => 0,
                }
            },
        };
        out.push(v);
        k += 1;
    }
    assert(out@ =~= filled_grid(g@, w as int, h as int));
    out
}

/// Canopy heights: surface minus terrain where the surface is known, clamped
/// at zero; zero elsewhere.
pub fn canopy_heights(dsm: &[Option<i32>], dtm: &[i32]) -> (r: Vec<i64>)
    requires
        dsm@.len() == dtm@.len(),
    ensures
        r@ == canopy_grid(dsm@, dtm@),
{
    let mut out: Vec<i64> = Vec::new();
    let mut k: usize = 0;
    while k < dsm.len()
        invariant
            k <= dsm.len(),
            dsm@.len() == dtm@.len(),
            out@.len() == k,
            forall|j: int| 0 <= j < k ==> #[trigger] out@[j] == canopy_at(dsm@[j], dtm@[j]),
        decreases dsm.len() - k,
    {
        let v: i64 = match dsm[k] {
            Some(s) => {
                let d: i64 = s as i64 - dtm[k] as i64;
                if d >= 0 { d } else { 0 }
            },
            None => 0,
        };
        out.push(v);
        k += 1;
    }
    assert(out@ =~= canopy_grid(dsm@, dtm@));
    out
}

/// Why a rasterization with these parameters cannot run, if it cannot.
pub open spec fn raster_error_for(b: BoundingBox, res: int) -> Option<RasterError> {
    if !b.valid() {
        Some(RasterError::InvalidBoundingBox)
    } else if res <= 0 {
        Some(RasterError::InvalidResolution)
    } else if grid_width(b, res) > usize::MAX || grid_height(b, res) > usize::MAX || grid_width(b, res)
        * grid_height(b, res) > usize::MAX {
        Some(RasterError::GridTooLarge)
    } else {
        None
    }
}

/// Rasterizes the points of `points` that lie in `bbox` and, when an
/// allow-list is given, carry one of its classification codes.
///
/// The grid has `ceil(extent / resolution)` columns and rows; a point goes to
/// column `floor((x - min_x) / resolution)` and row
/// `floor((max_y - y) / resolution)`. The surface grid keeps the highest point
/// of each cell, the terrain grid the highest ground point, its gaps filled by
/// one pass of [`fill_terrain_gaps`]; the canopy grid is their clamped
/// difference.
pub fn process_lidar_points(
    points: &[LidarPoint],
    bbox: BoundingBox,
    classification_list: Option<Vec<u8>>,
    resolution: u32,
) -> (r: Result<ProcessedRasters, RasterError>)
    ensures
        match raster_error_for(bbox, resolution as int) {
            Some(e) => r == Err::<ProcessedRasters, RasterError>(e),
            None => r is Ok && rasterized(
                points@,
                bbox,
                opt_view(classification_list),
                resolution as int,
                r->Ok_0,
            ),
        },
{
    if !bbox.is_valid() {
        return Err(RasterError::InvalidBoundingBox);
    }
    if resolution == 0 {
        return Err(RasterError::InvalidResolution);
    }
    let res: i64 = resolution as i64;
    let w64: i64 = floor_div(bbox.max_x as i64 - bbox.min_x as i64 + res - 1, res);
    let h64: i64 = floor_div(bbox.max_y as i64 - bbox.min_y as i64 + res - 1, res);
    proof {
        vstd::arithmetic::div_mod::lemma_div_pos_is_pos(bbox.max_x - bbox.min_x + res - 1, res as int);
        vstd::arithmetic::div_mod::lemma_div_pos_is_pos(bbox.max_y - bbox.min_y + res - 1, res as int);
    }
    if w64 as u128 > usize::MAX as u128 || h64 as u128 > usize::MAX as u128 {
        return Err(RasterError::GridTooLarge);
    }
    let w: usize = w64 as usize;
    let h: usize = h64 as usize;
    if w.checked_mul(h).is_none() {
        return Err(RasterError::GridTooLarge);
    }
    let (dsm, raw_dtm) = build_surface_grids(points, &bbox, &classification_list, resolution, w, h);
    let dtm = fill_terrain_gaps(raw_dtm.as_slice(), w, h);
    let chm = canopy_heights(dsm.as_slice(), dtm.as_slice());
    let transform: [i64; 6] = [bbox.min_x as i64, res, 0, bbox.max_y as i64, 0, -res];
    assert(transform@ =~= seq![bbox.min_x as i64, res, 0i64, bbox.max_y as i64, 0i64, (-res) as i64]);
    Ok(ProcessedRasters { dsm, dtm, chm, width: w, height: h, transform })
}

/// Rasterization depends on its inputs alone: two runs on the same points and
/// parameters give the same grids.
pub proof fn lemma_rasterize_deterministic(
    s: Seq<LidarPoint>,
    b: BoundingBox,
    classes: Option<Seq<u8>>,
    res: int,
    r1: ProcessedRasters,
    r2: ProcessedRasters,
)
    requires
        rasterized(s, b, classes, res, r1),
        rasterized(s, b, classes, res, r2),
    ensures
        r1.width == r2.width,
        r1.height == r2.height,
        r1.dsm@ == r2.dsm@,
        r1.dtm@ == r2.dtm@,
        r1.chm@ == r2.chm@,
        r1.transform@ == r2.transform@,
{
}

/// The canopy grid is never negative, in particular where both the surface
/// and the terrain are known.
pub proof fn lemma_canopy_non_negative(
    s: Seq<LidarPoint>,
    b: BoundingBox,
    classes: Option<Seq<u8>>,
    res: int,
    r: ProcessedRasters,
)
    requires
        rasterized(s, b, classes, res, r),
    ensures
        forall|k: int| 0 <= k < r.chm@.len() ==> #[trigger] r.chm@[k] >= 0,
{
}

/// The grid has `ceil((max_x - min_x) / res)` columns and
/// `ceil((max_y - min_y) / res)` rows, and every grid holds that many cells.
pub proof fn lemma_grid_dimensions(
    s: Seq<LidarPoint>,
    b: BoundingBox,
    classes: Option<Seq<u8>>,
    res: int,
    r: ProcessedRasters,
)
    requires
        rasterized(s, b, classes, res, r),
    ensures
        r.width == ceil_div(b.max_x - b.min_x, res),
        r.height == ceil_div(b.max_y - b.min_y, res),
        r.dsm@.len() == r.width * r.height,
        r.dtm@.len() == r.width * r.height,
        r.chm@.len() == r.width * r.height,
{
}

} // verus!
