//! Points, bounding boxes and the exact inclusion test shared by every stage.
//!
//! Coordinates are integer centimetres in one planar projected system: the
//! precision in which aerial survey tiles record their points.
use vstd::prelude::*;

verus! {

/// A decoded point: planar position, height and classification code.
#[derive(Clone, Copy, Debug, PartialEq, Eq, Structural)]
pub struct LidarPoint {
    pub x: i32,
    pub y: i32,
    pub z: i32,
    pub classification: u8,
}

/// An axis-aligned rectangle `[min_x, max_x] x [min_y, max_y]`, bounds included.
#[derive(Clone, Copy, Debug, PartialEq, Eq, Structural)]
pub struct BoundingBox {
    pub min_x: i32,
    pub min_y: i32,
    pub max_x: i32,
    pub max_y: i32,
}

impl BoundingBox {
    pub fn new(min_x: i32, min_y: i32, max_x: i32, max_y: i32) -> (r: BoundingBox)
        ensures
            r == (BoundingBox { min_x, min_y, max_x, max_y }),
    {
        BoundingBox { min_x, min_y, max_x, max_y }
    }

    /// A box is valid when its minimum corner does not exceed its maximum corner.
    pub open spec fn valid(self) -> bool {
        self.min_x <= self.max_x && self.min_y <= self.max_y
    }

    pub fn is_valid(&self) -> (r: bool)
        ensures
            r == self.valid(),
    {
        self.min_x <= self.max_x && self.min_y <= self.max_y
    }

    /// Whether the box holds the planar position `(x, y)`.
    pub fn contains_xy(&self, x: i32, y: i32) -> (r: bool)
        ensures
            r == xy_in_bbox(x as int, y as int, *self),
    {
        self.min_x <= x && x <= self.max_x && self.min_y <= y && y <= self.max_y
    }
}

pub open spec fn xy_in_bbox(x: int, y: int, b: BoundingBox) -> bool {
    b.min_x <= x <= b.max_x && b.min_y <= y <= b.max_y
}

pub open spec fn in_bbox(p: LidarPoint, b: BoundingBox) -> bool {
    xy_in_bbox(p.x as int, p.y as int, b)
}

/// The points of `s` that lie in `b`, in their order in `s`.
pub open spec fn points_in(s: Seq<LidarPoint>, b: BoundingBox) -> Seq<LidarPoint>
    decreases s.len(),
{
    if s.len() == 0 {
        Seq::empty()
    } else {
        let r = points_in(s.drop_last(), b);
        if in_bbox(s.last(), b) {
            r.push(s.last())
        } else {
            r
        }
    }
}

/// The points of `s` that lie in `b`, or all of them when there is no box.
pub open spec fn points_in_opt(s: Seq<LidarPoint>, b: Option<BoundingBox>) -> Seq<LidarPoint> {
    match b {
        Some(bb) => points_in(s, bb),
        None => s,
    }
}

/// Filtering never adds points.
pub proof fn lemma_points_in_len(s: Seq<LidarPoint>, b: BoundingBox)
    ensures
        points_in(s, b).len() <= s.len(),
    decreases s.len(),
{
    if s.len() > 0 {
        lemma_points_in_len(s.drop_last(), b);
    }
}

/// Filtering two parts separately and joining the results equals filtering
/// their concatenation: a large set may be filtered chunk by chunk.
pub proof fn lemma_points_in_append(s: Seq<LidarPoint>, t: Seq<LidarPoint>, b: BoundingBox)
    ensures
        points_in(s + t, b) == points_in(s, b) + points_in(t, b),
    decreases t.len(),
{
    if t.len() == 0 {
        assert(s + t =~= s);
        assert(points_in(s, b) + points_in(t, b) =~= points_in(s, b));
    } else {
        assert((s + t).drop_last() =~= s + t.drop_last());
        lemma_points_in_append(s, t.drop_last(), b);
        if in_bbox(t.last(), b) {
            assert(points_in(s, b) + points_in(t.drop_last(), b).push(t.last()) =~= (points_in(s, b)
                + points_in(t.drop_last(), b)).push(t.last()));
        }
    }
}

/// Keeps the points of `points` that lie in `b`, in order: the exact test that
/// every indexed query is followed by.
pub fn filter_points_linear(points: &[LidarPoint], b: &BoundingBox) -> (r: Vec<LidarPoint>)
    ensures
        r@ == points_in(points@, *b),
{
    let mut out: Vec<LidarPoint> = Vec::new();
    let mut i: usize = 0;
    while i < points.len()
        invariant
            i <= points.len(),
            out@ == points_in(points@.take(i as int), *b),
        decreases points.len() - i,
    {
        let p = points[i];
        assert(points@.take(i + 1).drop_last() =~= points@.take(i as int));
        if b.contains_xy(p.x, p.y) {
            out.push(p);
        }
        i += 1;
    }
    assert(points@.take(points.len() as int) =~= points@);
    out
}

/// `floor(a / b)` for a positive divisor.
pub fn floor_div(a: i64, b: i64) -> (r: i64)
    requires
        b > 0,
    ensures
        r == a / b,
{
    if a >= 0 {
        a / b
    } else {
        let n: i128 = -(a as i128);
        let q: i128 = (n + (b as i128) - 1) / (b as i128);
        proof {
            lemma_floor_div_negative(n as int, b as int);
        }
        (-q) as i64
    }
}

/// `ceil(a / b)` for a non-negative dividend and a positive divisor.
pub open spec fn ceil_div(a: int, b: int) -> int {
    (a + b - 1) / b
}

proof fn lemma_floor_div_negative(n: int, b: int)
    requires
        n > 0,
        b > 0,
    ensures
        -((n + b - 1) / b) == (-n) / b,
        (n + b - 1) / b <= n,
{
    let q = (n + b - 1) / b;
    let r = (n + b - 1) % b;
    vstd::arithmetic::div_mod::lemma_fundamental_div_mod(n + b - 1, b);
    vstd::arithmetic::div_mod::lemma_mod_bound(n + b - 1, b);
    assert(-n == (-q) * b + (b - 1 - r)) by (nonlinear_arith)
        requires
            n + b - 1 == b * q + r,
    ;
    vstd::arithmetic::div_mod::lemma_fundamental_div_mod_converse(-n, b, -q, b - 1 - r);
    assert(q <= n) by (nonlinear_arith)
        requires
            n + b - 1 == b * q + r,
            r >= 0,
            b > 0,
            n > 0,
    ;
}

} // verus!
