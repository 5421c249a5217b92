//! A quadtree over the points' plane. Leaves split into four quadrants once
//! they hold more than a fixed number of points, down to a maximum depth; a
//! query walks every node whose rectangle meets the query box.
use vstd::prelude::*;
use crate::geometry::{BoundingBox, LidarPoint, in_bbox, floor_div};

verus! {

/// `(min_x, min_y, min_z, max_x, max_y, max_z)`.
pub type NodeBounds = (i64, i64, i64, i64, i64, i64);

/// Points a leaf holds before it splits.
pub const MAX_POINTS_PER_NODE: usize = 1000;

/// Depth below which no node splits.
pub const MAX_DEPTH: u8 = 12;

/// Magnitude that no bound of a node exceeds.
pub const BOUND_LIMIT: i64 = 0x100_0000_0000;

pub struct OctreeNode {
    pub bounds: NodeBounds,
    /// Point indices held by this node itself (leaves only).
    pub points: Vec<usize>,
    pub children: Option<Box<Quadrants>>,
    pub depth: u8,
}

/// The four child slots of a split node, each filled when a point first
/// reaches it.
pub struct Quadrants {
    pub sw: Option<OctreeNode>,
    pub se: Option<OctreeNode>,
    pub nw: Option<OctreeNode>,
    pub ne: Option<OctreeNode>,
}

/// How many times `i` occurs in `s`.
pub open spec fn count_of(s: Seq<usize>, i: usize) -> nat
    decreases s.len(),
{
    if s.len() == 0 {
        0
    } else {
        count_of(s.drop_last(), i) + if s.last() == i { 1nat } else { 0nat }
    }
}

pub open spec fn bounds_contain(b: NodeBounds, x: int, y: int) -> bool {
    b.0 <= x <= b.3 && b.1 <= y <= b.4
}

pub open spec fn bounds_in_range(b: NodeBounds) -> bool {
    &&& -BOUND_LIMIT <= b.0 <= BOUND_LIMIT
    &&& -BOUND_LIMIT <= b.1 <= BOUND_LIMIT
    &&& -BOUND_LIMIT <= b.3 <= BOUND_LIMIT
    &&& -BOUND_LIMIT <= b.4 <= BOUND_LIMIT
    &&& b.0 <= b.3
    &&& b.1 <= b.4
}

pub open spec fn mid(a: int, b: int) -> int {
    (a + b) / 2
}

/// Whether the rectangle `b` meets `[min_x, max_x] x [min_y, max_y]`.
pub open spec fn meets(b: NodeBounds, min_x: int, min_y: int, max_x: int, max_y: int) -> bool {
    !(b.3 < min_x || b.0 > max_x || b.4 < min_y || b.1 > max_y)
}

/// Quadrant of `(x, y)`: 0 south-west, 1 south-east, 2 north-west, 3 north-east.
pub open spec fn quadrant_spec(b: NodeBounds, x: int, y: int) -> int {
    let right = x >= mid(b.0 as int, b.3 as int);
    let top = y >= mid(b.1 as int, b.4 as int);
    if !right && !top {
        0
    } else if right && !top {
        1
    } else if !right && top {
        2
    } else {
        3
    }
}

pub open spec fn child_bounds_spec(b: NodeBounds, q: int) -> NodeBounds {
    let mx = mid(b.0 as int, b.3 as int) as i64;
    let my = mid(b.1 as int, b.4 as int) as i64;
    if q == 0 {
        (b.0, b.1, b.2, mx, my, b.5)
    } else if q == 1 {
        (mx, b.1, b.2, b.3, my, b.5)
    } else if q == 2 {
        (b.0, my, b.2, mx, b.4, b.5)
    } else {
        (mx, my, b.2, b.3, b.4, b.5)
    }
}

proof fn lemma_mid_range(a: int, b: int)
    requires
        -BOUND_LIMIT <= a <= BOUND_LIMIT,
        -BOUND_LIMIT <= b <= BOUND_LIMIT,
    ensures
        -BOUND_LIMIT <= mid(a, b) <= BOUND_LIMIT,
        a <= b ==> a <= mid(a, b) <= b,
{
    vstd::arithmetic::div_mod::lemma_div_is_ordered(-2 * BOUND_LIMIT, a + b, 2);
    vstd::arithmetic::div_mod::lemma_div_is_ordered(a + b, 2 * BOUND_LIMIT, 2);
    if a <= b {
        vstd::arithmetic::div_mod::lemma_div_is_ordered(2 * a, a + b, 2);
        vstd::arithmetic::div_mod::lemma_div_is_ordered(a + b, 2 * b, 2);
    }
}

/// A child's rectangle lies in its parent's, and a point goes to a child whose
/// rectangle holds it.
proof fn lemma_child_bounds(b: NodeBounds, q: int, x: int, y: int)
    requires
        bounds_in_range(b),
        0 <= q < 4,
    ensures
        bounds_in_range(child_bounds_spec(b, q)),
        bounds_contain(child_bounds_spec(b, q), x, y) ==> bounds_contain(b, x, y),
        bounds_contain(b, x, y) && q == quadrant_spec(b, x, y) ==> bounds_contain(
            child_bounds_spec(b, q),
            x,
            y,
        ),
{
    lemma_mid_range(b.0 as int, b.3 as int);
    lemma_mid_range(b.1 as int, b.4 as int);
}

impl Quadrants {
    pub open spec fn holds(self, i: usize) -> bool {
        (self.sw is Some && self.sw->Some_0.holds(i)) || (self.se is Some && self.se->Some_0.holds(i))
            || (self.nw is Some && self.nw->Some_0.holds(i)) || (self.ne is Some
            && self.ne->Some_0.holds(i))
    }

    /// How many times the slots' subtrees hold `i`.
    pub open spec fn occurrences(self, i: usize) -> nat {
        (if self.sw is Some { self.sw->Some_0.occurrences(i) } else { 0 }) + (if self.se is Some {
            self.se->Some_0.occurrences(i)
        } else {
            0
        }) + (if self.nw is Some { self.nw->Some_0.occurrences(i) } else { 0 }) + (if self.ne is Some {
            self.ne->Some_0.occurrences(i)
        } else {
            0
        })
    }

    /// The slots' structure below a node with rectangle `b` at depth `depth`.
    pub open spec fn wf_under(self, b: NodeBounds, depth: int, pts: Seq<LidarPoint>) -> bool {
        &&& (self.sw is Some ==> self.sw->Some_0.wf(pts) && self.sw->Some_0.bounds == child_bounds_spec(b, 0)
            && self.sw->Some_0.depth == depth + 1)
        &&& (self.se is Some ==> self.se->Some_0.wf(pts) && self.se->Some_0.bounds == child_bounds_spec(b, 1)
            && self.se->Some_0.depth == depth + 1)
        &&& (self.nw is Some ==> self.nw->Some_0.wf(pts) && self.nw->Some_0.bounds == child_bounds_spec(b, 2)
            && self.nw->Some_0.depth == depth + 1)
        &&& (self.ne is Some ==> self.ne->Some_0.wf(pts) && self.ne->Some_0.bounds == child_bounds_spec(b, 3)
            && self.ne->Some_0.depth == depth + 1)
    }

    proof fn lemma_contained(self, b: NodeBounds, depth: int, pts: Seq<LidarPoint>)
        requires
            self.wf_under(b, depth, pts),
            bounds_in_range(b),
        ensures
            forall|i: usize|
                #[trigger] self.holds(i) ==> i < pts.len() && bounds_contain(
                    b,
                    pts[i as int].x as int,
                    pts[i as int].y as int,
                ),
    {
        assert forall|i: usize| #[trigger] self.holds(i) implies i < pts.len() && bounds_contain(
            b,
            pts[i as int].x as int,
            pts[i as int].y as int,
        ) by {
            let x = pts[i as int].x as int;
            let y = pts[i as int].y as int;
            lemma_child_bounds(b, 0, x, y);
            lemma_child_bounds(b, 1, x, y);
            lemma_child_bounds(b, 2, x, y);
            lemma_child_bounds(b, 3, x, y);
            if self.sw is Some && self.sw->Some_0.holds(i) {
                assert(self.sw->Some_0.wf(pts));
            } else if self.se is Some && self.se->Some_0.holds(i) {
                assert(self.se->Some_0.wf(pts));
            } else if self.nw is Some && self.nw->Some_0.holds(i) {
                assert(self.nw->Some_0.wf(pts));
            } else {
                assert(self.ne->Some_0.wf(pts));
            }
        }
    }

    /// Sends point `i`, inside `b`, to the slot of its quadrant.
    fn push_down(self, b: NodeBounds, depth: u8, i: usize, pts: &[LidarPoint]) -> (r: Quadrants)
        requires
            self.wf_under(b, depth as int, pts@),
            depth < MAX_DEPTH,
            bounds_in_range(b),
            i < pts@.len(),
            bounds_contain(b, pts@[i as int].x as int, pts@[i as int].y as int),
        ensures
            r.wf_under(b, depth as int, pts@),
            forall|j: usize| #[trigger] r.holds(j) <==> self.holds(j) || j == i,
            forall|j: usize|
                #[trigger] r.occurrences(j) == self.occurrences(j) + if j == i { 1nat } else { 0nat },
        decreases MAX_DEPTH + 1 - depth, 1int,
    {
        let p = pts[i];
        let q = quadrant_of(&b, p.x as i64, p.y as i64);
        let cb = bounds_of_child(&b, q);
        proof {
            lemma_child_bounds(b, q as int, p.x as int, p.y as int);
        }
        let Quadrants { sw, se, nw, ne } = self;
        if q == 0 {
            let c = insert_into_slot(sw, cb, depth, i, pts);
            Quadrants { sw: Some(c), se, nw, ne }
        } else if q == 1 {
            let c = insert_into_slot(se, cb, depth, i, pts);
            Quadrants { sw, se: Some(c), nw, ne }
        } else if q == 2 {
            let c = insert_into_slot(nw, cb, depth, i, pts);
            Quadrants { sw, se, nw: Some(c), ne }
        } else {
            let c = insert_into_slot(ne, cb, depth, i, pts);
            Quadrants { sw, se, nw, ne: Some(c) }
        }
    }
}

fn quadrant_of(b: &NodeBounds, x: i64, y: i64) -> (r: usize)
    requires
        bounds_in_range(*b),
    ensures
        r == quadrant_spec(*b, x as int, y as int),
        r < 4,
{
    let mid_x = floor_div(b.0 + b.3, 2);
    let mid_y = floor_div(b.1 + b.4, 2);
    let right = x >= mid_x;
    let top = y >= mid_y;
    if !right && !top {
        0
    } else if right && !top {
        1
    } else if !right && top {
        2
    } else {
        3
    }
}

fn bounds_of_child(b: &NodeBounds, quadrant: usize) -> (r: NodeBounds)
    requires
        bounds_in_range(*b),
        quadrant < 4,
    ensures
        r == child_bounds_spec(*b, quadrant as int),
{
    let mid_x = floor_div(b.0 + b.3, 2);
    let mid_y = floor_div(b.1 + b.4, 2);
    proof {
        lemma_mid_range(b.0 as int, b.3 as int);
        lemma_mid_range(b.1 as int, b.4 as int);
    }
    if quadrant == 0 {
        (b.0, b.1, b.2, mid_x, mid_y, b.5)
    } else if quadrant == 1 {
        (mid_x, b.1, b.2, b.3, mid_y, b.5)
    } else if quadrant == 2 {
        (b.0, mid_y, b.2, mid_x, b.4, b.5)
    } else {
        (mid_x, mid_y, b.2, b.3, b.4, b.5)
    }
}

/// Inserts point `i` into a child slot, creating the child on first use.
fn insert_into_slot(slot: Option<OctreeNode>, cb: NodeBounds, depth: u8, i: usize, pts: &[LidarPoint]) -> (r:
    OctreeNode)
    requires
        slot is Some ==> slot->Some_0.wf(pts@) && slot->Some_0.bounds == cb && slot->Some_0.depth == depth
            + 1,
        depth < MAX_DEPTH,
        bounds_in_range(cb),
        i < pts@.len(),
        bounds_contain(cb, pts@[i as int].x as int, pts@[i as int].y as int),
    ensures
        r.wf(pts@),
        r.bounds == cb,
        r.depth == depth + 1,
        forall|j: usize| #[trigger] r.holds(j) <==> (slot is Some && slot->Some_0.holds(j)) || j == i,
        forall|j: usize|
            #[trigger] r.occurrences(j) == (if slot is Some { slot->Some_0.occurrences(j) } else { 0 }) + if j
                == i {
                1nat
            } else {
                0nat
            },
    decreases MAX_DEPTH + 1 - depth, 0int,
{
    let child = match slot {
        Some(c) => c,
        None => {
            let c = OctreeNode { bounds: cb, points: Vec::new(), children: None, depth: depth + 1 };
            assert forall|j: usize| !#[trigger] c.holds(j) by {
                assert(!c.points@.contains(j));
            }
            assert forall|j: usize| #[trigger] c.occurrences(j) == 0 by {
                assert(count_of(c.points@, j) == 0);
            }
            c
        },
    };
    child.insert(i, pts)
}

impl OctreeNode {
    pub open spec fn spec_bounds(self) -> NodeBounds {
        self.bounds
    }

    pub open spec fn spec_depth(self) -> u8 {
        self.depth
    }

    /// Whether the subtree holds the point index `i`.
    pub open spec fn holds(self, i: usize) -> bool
        decreases self,
    {
        self.points@.contains(i) || match self.children {
            Some(ch) => {
                (ch.sw is Some && ch.sw->Some_0.holds(i)) || (ch.se is Some && ch.se->Some_0.holds(i))
                    || (ch.nw is Some && ch.nw->Some_0.holds(i)) || (ch.ne is Some
                    && ch.ne->Some_0.holds(i))
            },
            None => false,
        }
    }

    /// Whether `i` is held by a node of the subtree that, like all the nodes
    /// on its way from this one, meets the box `[min_x, max_x] x [min_y, max_y]`.
    pub open spec fn held_where_meets(self, i: usize, min_x: int, min_y: int, max_x: int, max_y: int) -> bool
        decreases self,
    {
        meets(self.bounds, min_x, min_y, max_x, max_y) && (self.points@.contains(i) || match self.children {
            Some(ch) => (ch.sw is Some && ch.sw->Some_0.held_where_meets(i, min_x, min_y, max_x, max_y)) || (
            ch.se is Some && ch.se->Some_0.held_where_meets(i, min_x, min_y, max_x, max_y)) || (ch.nw is Some
                && ch.nw->Some_0.held_where_meets(i, min_x, min_y, max_x, max_y)) || (ch.ne is Some
                && ch.ne->Some_0.held_where_meets(i, min_x, min_y, max_x, max_y)),
            None => false,
        })
    }

    /// How many times the subtree holds `i`.
    pub open spec fn occurrences(self, i: usize) -> nat
        decreases self,
    {
        count_of(self.points@, i) + match self.children {
            Some(ch) => (if ch.sw is Some { ch.sw->Some_0.occurrences(i) } else { 0 }) + (if ch.se is Some {
                ch.se->Some_0.occurrences(i)
            } else {
                0
            }) + (if ch.nw is Some { ch.nw->Some_0.occurrences(i) } else { 0 }) + (if ch.ne is Some {
                ch.ne->Some_0.occurrences(i)
            } else {
                0
            }),
            None => 0,
        }
    }

    /// Structure of the subtree over the point set `pts`: each held index
    /// names a point inside the node's rectangle, children sit one level
    /// deeper in their quadrant's rectangle, and only nodes above the maximum
    /// depth have children. A node with children holds no point itself, and a
    /// leaf holds more than [`MAX_POINTS_PER_NODE`] points only at the maximum
    /// depth.
    pub open spec fn wf(self, pts: Seq<LidarPoint>) -> bool
        decreases self,
    {
        &&& self.depth <= MAX_DEPTH
        &&& bounds_in_range(self.bounds)
        &&& self.children is Some ==> self.points@.len() == 0
        &&& self.children is None && self.points@.len() > MAX_POINTS_PER_NODE ==> self.depth == MAX_DEPTH
        &&& forall|i: usize|
            #[trigger] self.holds(i) ==> i < pts.len() && bounds_contain(
                self.bounds,
                pts[i as int].x as int,
                pts[i as int].y as int,
            )
        &&& match self.children {
            Some(ch) => {
                &&& self.depth < MAX_DEPTH
                &&& (ch.sw is Some ==> ch.sw->Some_0.wf(pts) && ch.sw->Some_0.bounds == child_bounds_spec(
                    self.bounds,
                    0,
                ) && ch.sw->Some_0.depth == self.depth + 1)
                &&& (ch.se is Some ==> ch.se->Some_0.wf(pts) && ch.se->Some_0.bounds == child_bounds_spec(
                    self.bounds,
                    1,
                ) && ch.se->Some_0.depth == self.depth + 1)
                &&& (ch.nw is Some ==> ch.nw->Some_0.wf(pts) && ch.nw->Some_0.bounds == child_bounds_spec(
                    self.bounds,
                    2,
                ) && ch.nw->Some_0.depth == self.depth + 1)
                &&& (ch.ne is Some ==> ch.ne->Some_0.wf(pts) && ch.ne->Some_0.bounds == child_bounds_spec(
                    self.bounds,
                    3,
                ) && ch.ne->Some_0.depth == self.depth + 1)
            },
            None => true,
        }
    }

    /// An empty leaf.
    pub fn new_leaf(bounds: NodeBounds, depth: u8) -> (r: OctreeNode)
        ensures
            r.spec_bounds() == bounds,
            r.spec_depth() == depth,
            forall|i: usize| !#[trigger] r.holds(i),
    {
        let r = OctreeNode { bounds, points: Vec::new(), children: None, depth };
        assert forall|i: usize| !#[trigger] r.holds(i) by {
            assert(!r.points@.contains(i));
        }
        r
    }

    /// Whether `(x, y)` lies in the node's rectangle, edges included.
    pub fn contains_xy(&self, x: i64, y: i64) -> (r: bool)
        ensures
            r == bounds_contain(self.spec_bounds(), x as int, y as int),
    {
        x >= self.bounds.0 && x <= self.bounds.3 && y >= self.bounds.1 && y <= self.bounds.4
    }

    /// Whether the node's rectangle meets `[min_x, max_x] x [min_y, max_y]`.
    pub fn intersects_bbox(&self, min_x: i64, min_y: i64, max_x: i64, max_y: i64) -> (r: bool)
        ensures
            r == !(self.spec_bounds().3 < min_x || self.spec_bounds().0 > max_x
                || self.spec_bounds().4 < min_y || self.spec_bounds().1 > max_y),
    {
        !(self.bounds.3 < min_x || self.bounds.0 > max_x || self.bounds.4 < min_y || self.bounds.1 > max_y)
    }

    /// The quadrant that `(x, y)` belongs to: 0 south-west, 1 south-east,
    /// 2 north-west, 3 north-east.
    pub fn quadrant_for_point(&self, x: i64, y: i64) -> (r: usize)
        requires
            bounds_in_range(self.spec_bounds()),
        ensures
            r == quadrant_spec(self.spec_bounds(), x as int, y as int),
    {
        let mid_x = floor_div(self.bounds.0 + self.bounds.3, 2);
        let mid_y = floor_div(self.bounds.1 + self.bounds.4, 2);
        let right = x >= mid_x;
        let top = y >= mid_y;
        if !right && !top {
            0
        } else if right && !top {
            1
        } else if !right && top {
            2
        } else {
            3
        }
    }

    /// The rectangle of quadrant `quadrant`.
    pub fn child_bounds(&self, quadrant: usize) -> (r: NodeBounds)
        requires
            bounds_in_range(self.spec_bounds()),
            quadrant < 4,
        ensures
            r == child_bounds_spec(self.spec_bounds(), quadrant as int),
    {
        let b = self.bounds;
        let mid_x = floor_div(b.0 + b.3, 2);
        let mid_y = floor_div(b.1 + b.4, 2);
        proof {
            lemma_mid_range(b.0 as int, b.3 as int);
            lemma_mid_range(b.1 as int, b.4 as int);
        }
        if quadrant == 0 {
            (b.0, b.1, b.2, mid_x, mid_y, b.5)
        } else if quadrant == 1 {
            (mid_x, b.1, b.2, b.3, mid_y, b.5)
        } else if quadrant == 2 {
            (b.0, mid_y, b.2, mid_x, b.4, b.5)
        } else {
            (mid_x, mid_y, b.2, b.3, b.4, b.5)
        }
    }

    /// Adds point `i` to the subtree when the node's rectangle holds it; a leaf
    /// that then holds too many points splits into quadrants, unless it is at
    /// the maximum depth.
    pub fn insert(self, i: usize, pts: &[LidarPoint]) -> (r: OctreeNode)
        requires
            self.wf(pts@),
            i < pts@.len(),
        ensures
            r.wf(pts@),
            r.bounds == self.bounds,
            r.depth == self.depth,
            forall|j: usize|
                #[trigger] r.holds(j) <==> self.holds(j) || (j == i && bounds_contain(
                    self.bounds,
                    pts@[i as int].x as int,
                    pts@[i as int].y as int,
                )),
            forall|j: usize|
                #[trigger] r.occurrences(j) == self.occurrences(j) + if j == i && bounds_contain(
                    self.bounds,
                    pts@[i as int].x as int,
                    pts@[i as int].y as int,
                ) {
                    1nat
                } else {
                    0nat
                },
            self.children is Some ==> r.children is Some,
            self.children is None ==> (r.children is Some <==> bounds_contain(
                self.bounds,
                pts@[i as int].x as int,
                pts@[i as int].y as int,
            ) && self.points@.len() + 1 > MAX_POINTS_PER_NODE && self.depth < MAX_DEPTH),
        decreases MAX_DEPTH + 1 - self.depth, 2int,
    {
        let p = pts[i];
        if !self.contains_xy(p.x as i64, p.y as i64) {
            return self;
        }
        let ghost old_self = self;
        let ghost inside = bounds_contain(self.bounds, pts@[i as int].x as int, pts@[i as int].y as int);
        assert(inside);
        let OctreeNode { bounds, points, children, depth } = self;
        match children {
            Some(ch) => {
                let ch0: Quadrants = *ch;
                assert(ch0.wf_under(bounds, depth as int, pts@));
                let ch2 = ch0.push_down(bounds, depth, i, pts);
                proof {
                    ch2.lemma_contained(bounds, depth as int, pts@);
                }
                let r = OctreeNode { bounds, points, children: Some(Box::new(ch2)), depth };
                assert forall|j: usize| #[trigger] r.holds(j) <==> old_self.holds(j) || j == i by {
                    assert(r.holds(j) == (points@.contains(j) || ch2.holds(j)));
                    assert(old_self.holds(j) == (points@.contains(j) || ch0.holds(j)));
                }
                assert forall|j: usize| #[trigger] r.occurrences(j) == old_self.occurrences(j) + if j == i {
                    1nat
                } else {
                    0nat
                } by {
                    assert(r.occurrences(j) == count_of(points@, j) + ch2.occurrences(j));
                    assert(old_self.occurrences(j) == count_of(points@, j) + ch0.occurrences(j));
                }
                assert(forall|j: usize| #[trigger] r.holds(j) <==> old_self.holds(j) || (j == i && inside));
                r
            },
            None => {
                let mut points = points;
                let ghost old_points = points@;
                points.push(i);
                assert forall|j: usize| points@.contains(j) <==> old_points.contains(j) || j == i by {
                    if old_points.contains(j) {
                        let t = choose|t: int| 0 <= t < old_points.len() && old_points[t] == j;
                        assert(points@[t] == j);
                    }
                    if j == i {
                        assert(points@[old_points.len() as int] == i);
                    }
                }
                assert forall|j: usize| #[trigger] points@.contains(j) implies j < pts@.len()
                    && bounds_contain(bounds, pts@[j as int].x as int, pts@[j as int].y as int) by {
                    if j != i {
                        assert(old_self.holds(j));
                    }
                }
                assert(points@.drop_last() =~= old_points);
                assert forall|j: usize| #[trigger] count_of(points@, j) == old_self.occurrences(j) + if j == i {
                    1nat
                } else {
                    0nat
                } by {
                    assert(old_self.occurrences(j) == count_of(old_points, j));
                }
                if points.len() > MAX_POINTS_PER_NODE && depth < MAX_DEPTH {
                    let mut ch = Quadrants { sw: None, se: None, nw: None, ne: None };
                    let mut k: usize = 0;
                    while k < points.len()
                        invariant
                            k <= points@.len(),
                            depth < MAX_DEPTH,
                            depth == old_self.depth,
                            depth == self.depth,
                            bounds_in_range(bounds),
                            ch.wf_under(bounds, depth as int, pts@),
                            forall|j: usize| #[trigger] points@.contains(j) ==> j < pts@.len()
                                && bounds_contain(bounds, pts@[j as int].x as int, pts@[j as int].y as int),
                            forall|j: usize|
                                #[trigger] ch.holds(j) <==> exists|t: int| 0 <= t < k && points@[t] == j,
                            forall|j: usize| #[trigger] ch.occurrences(j) == count_of(points@.take(k as int), j),
                        decreases points@.len() - k,
                    {
                        assert(points@.contains(points@[k as int]));
                        assert(points@.take(k + 1).drop_last() =~= points@.take(k as int));
                        ch = ch.push_down(bounds, depth, points[k], pts);
                        assert forall|j: usize|
                            #[trigger] ch.holds(j) <==> exists|t: int| 0 <= t < k + 1 && points@[t] == j by {
                            if j == points@[k as int] {
                                assert(0 <= k < k + 1 && points@[k as int] == j);
                            }
                        }
                        k += 1;
                    }
                    proof {
                        ch.lemma_contained(bounds, depth as int, pts@);
                    }
                    assert(points@.take(points@.len() as int) =~= points@);
                    let r = OctreeNode { bounds, points: Vec::new(), children: Some(Box::new(ch)), depth };
                    assert forall|j: usize| #[trigger] r.holds(j) <==> points@.contains(j) by {
                        assert(!r.points@.contains(j));
                        assert(r.holds(j) == (r.points@.contains(j) || ch.holds(j)));
                    }
                    assert forall|j: usize| #[trigger] r.occurrences(j) == count_of(points@, j) by {
                        assert(count_of(r.points@, j) == 0);
                        assert(r.occurrences(j) == count_of(r.points@, j) + ch.occurrences(j));
                    }
                    r
                } else {
                    let ghost pv = points@;
                    let r = OctreeNode { bounds, points, children: None, depth };
                    assert forall|j: usize| #[trigger] r.occurrences(j) == count_of(pv, j) by {}
                    r
                }
            },
        }
    }

    /// Appends to `result` the indices held by every node whose rectangle
    /// meets the box, keeping what `result` held.
    fn query_into(
        &self,
        min_x: i64,
        min_y: i64,
        max_x: i64,
        max_y: i64,
        result: &mut Vec<usize>,
        Ghost(pts): Ghost<Seq<LidarPoint>>,
    )
        requires
            self.wf(pts),
            forall|k: int| 0 <= k < old(result)@.len() ==> #[trigger] old(result)@[k] < pts.len(),
        ensures
            forall|k: int| 0 <= k < final(result)@.len() ==> #[trigger] final(result)@[k] < pts.len(),
            forall|x: usize| old(result)@.contains(x) ==> #[trigger] final(result)@.contains(x),
            forall|j: usize|
                #[trigger] self.holds(j) && min_x <= pts[j as int].x <= max_x && min_y <= pts[j as int].y
                    <= max_y ==> final(result)@.contains(j),
            final(result)@.len() >= old(result)@.len(),
            forall|k: int| 0 <= k < old(result)@.len() ==> #[trigger] final(result)@[k] == old(result)@[k],
            forall|k: int|
                old(result)@.len() <= k < final(result)@.len() ==> self.held_where_meets(
                    #[trigger] final(result)@[k],
                    min_x as int,
                    min_y as int,
                    max_x as int,
                    max_y as int,
                ),
        decreases self,
    {
        if !self.intersects_bbox(min_x, min_y, max_x, max_y) {
            return;
        }
        let ghost before = result@;
        let mut k: usize = 0;
        while k < self.points.len()
            invariant
                k <= self.points@.len(),
                self.wf(pts),
                forall|t: int| 0 <= t < result@.len() ==> #[trigger] result@[t] < pts.len(),
                result@.len() == before.len() + k,
                forall|t: int| 0 <= t < before.len() ==> #[trigger] result@[t] == before[t],
                forall|t: int| 0 <= t < k ==> #[trigger] result@[before.len() + t] == self.points@[t],
            decreases self.points@.len() - k,
        {
            assert(self.points@.contains(self.points@[k as int]));
            assert(self.holds(self.points@[k as int]));
            result.push(self.points[k]);
            k += 1;
        }
        assert forall|j: usize| self.points@.contains(j) implies result@.contains(j) by {
            let t = choose|t: int| 0 <= t < self.points@.len() && self.points@[t] == j;
            assert(result@[before.len() + t] == j);
        }
        assert forall|x: usize| before.contains(x) implies result@.contains(x) by {
            let t = choose|t: int| 0 <= t < before.len() && before[t] == x;
            assert(result@[t] == x);
        }
        assert forall|k: int| before.len() <= k < result@.len() implies self.points@.contains(
            #[trigger] result@[k],
        ) by {
            assert(result@[before.len() + (k - before.len())] == self.points@[k - before.len()]);
        }
        let ghost r0 = result@;
        match &self.children {
            Some(ch) => {
                match &ch.sw {
                    Some(c) => c.query_into(min_x, min_y, max_x, max_y, result, Ghost(pts)),
                    None => {},
                }
                let ghost r1 = result@;
                match &ch.se {
                    Some(c) => c.query_into(min_x, min_y, max_x, max_y, result, Ghost(pts)),
                    None => {},
                }
                let ghost r2 = result@;
                match &ch.nw {
                    Some(c) => c.query_into(min_x, min_y, max_x, max_y, result, Ghost(pts)),
                    None => {},
                }
                let ghost r3 = result@;
                match &ch.ne {
                    Some(c) => c.query_into(min_x, min_y, max_x, max_y, result, Ghost(pts)),
                    None => {},
                }
                proof {
                    assert forall|x: usize| r0.contains(x) implies #[trigger] result@.contains(x) by {
                        if r0.contains(x) {
                            assert(r1.contains(x));
                            assert(r2.contains(x));
                            assert(r3.contains(x));
                        }
                    }
                    assert forall|x: usize| r1.contains(x) implies #[trigger] result@.contains(x) by {
                        assert(r2.contains(x));
                        assert(r3.contains(x));
                    }
                    assert forall|x: usize| r2.contains(x) implies #[trigger] result@.contains(x) by {
                        assert(r3.contains(x));
                    }
                    assert forall|k: int|
                        before.len() <= k < result@.len() implies self.held_where_meets(
                        #[trigger] result@[k],
                        min_x as int,
                        min_y as int,
                        max_x as int,
                        max_y as int,
                    ) by {
                        if k < r0.len() {
                            assert(r1[k] == r0[k] && r2[k] == r1[k] && r3[k] == r2[k] && result@[k] == r3[k]);
                            assert(self.points@.contains(r0[k]));
                        } else if k < r1.len() {
                            assert(r2[k] == r1[k] && r3[k] == r2[k] && result@[k] == r3[k]);
                            assert(ch.sw is Some);
                        } else if k < r2.len() {
                            assert(r3[k] == r2[k] && result@[k] == r3[k]);
                            assert(ch.se is Some);
                        } else if k < r3.len() {
                            assert(result@[k] == r3[k]);
                            assert(ch.nw is Some);
                        } else {
                            assert(ch.ne is Some);
                        }
                    }
                    assert forall|j: usize|
                        #[trigger] self.holds(j) && min_x <= pts[j as int].x <= max_x && min_y <= pts[j
                            as int].y <= max_y implies result@.contains(j) by {
                        if self.points@.contains(j) {
                            assert(r0.contains(j));
                        } else if ch.sw is Some && ch.sw->Some_0.holds(j) {
                            assert(r1.contains(j));
                        } else if ch.se is Some && ch.se->Some_0.holds(j) {
                            assert(r2.contains(j));
                        } else if ch.nw is Some && ch.nw->Some_0.holds(j) {
                            assert(r3.contains(j));
                        } else {
                            assert(ch.ne is Some && ch.ne->Some_0.holds(j));
                        }
                    }
                }
            },
            None => {},
        }
    }
}

/// Coordinate `axis` of `p`: 0 for x, 1 for y, 2 for z.
pub open spec fn coord(p: LidarPoint, axis: int) -> int {
    if axis == 0 {
        p.x as int
    } else if axis == 1 {
        p.y as int
    } else {
        p.z as int
    }
}

/// `lo` and `hi` are the least and greatest coordinate `axis` over `s`.
pub open spec fn is_extent(s: Seq<LidarPoint>, axis: int, lo: int, hi: int) -> bool {
    &&& forall|i: int| 0 <= i < s.len() ==> lo <= #[trigger] coord(s[i], axis) <= hi
    &&& exists|i: int| 0 <= i < s.len() && #[trigger] coord(s[i], axis) == lo
    &&& exists|i: int| 0 <= i < s.len() && #[trigger] coord(s[i], axis) == hi
}

proof fn lemma_extent_push(s: Seq<LidarPoint>, p: LidarPoint, axis: int, lo: int, hi: int)
    requires
        is_extent(s, axis, lo, hi),
    ensures
        is_extent(
            s.push(p),
            axis,
            if coord(p, axis) < lo { coord(p, axis) } else { lo },
            if coord(p, axis) > hi { coord(p, axis) } else { hi },
        ),
{
    let t = s.push(p);
    let c = coord(p, axis);
    assert(t[s.len() as int] == p);
    assert forall|i: int| 0 <= i < t.len() implies (if c < lo { c } else { lo }) <= #[trigger] coord(t[i], axis) <= (
    if c > hi { c } else { hi }) by {
        if i < s.len() {
            assert(t[i] == s[i]);
        }
    }
    let a = choose|i: int| 0 <= i < s.len() && #[trigger] coord(s[i], axis) == lo;
    let b = choose|i: int| 0 <= i < s.len() && #[trigger] coord(s[i], axis) == hi;
    assert(t[a] == s[a] && t[b] == s[b]);
    if c < lo {
        assert(coord(t[s.len() as int], axis) == c);
    } else {
        assert(coord(t[a], axis) == lo);
    }
    if c > hi {
        assert(coord(t[s.len() as int], axis) == c);
    } else {
        assert(coord(t[b], axis) == hi);
    }
}

/// A quadtree over a point set, answering box queries with candidate indices.
pub struct QuadtreeSpatialIndex {
    root: OctreeNode,
    indexed: Ghost<Seq<LidarPoint>>,
}

/// Margin added around the points' extent so that every point lies strictly
/// inside the root's rectangle.
pub const ROOT_PADDING: i64 = 1;

impl QuadtreeSpatialIndex {
    /// The root node.
    pub closed spec fn spec_root(self) -> OctreeNode {
        self.root
    }

    pub closed spec fn points(self) -> Seq<LidarPoint> {
        self.indexed@
    }

    /// Every indexed point is held by the tree, which holds nothing else.
    pub closed spec fn wf(self) -> bool {
        &&& self.root.wf(self.indexed@)
        &&& self.indexed@.len() <= usize::MAX
        &&& forall|i: int| 0 <= i < self.indexed@.len() ==> #[trigger] self.root.holds(i as usize)
    }

    /// Builds the tree over `points`: the root's rectangle is their extent
    /// widened by a small margin, and the points are inserted in order.
    pub fn build(points: &[LidarPoint]) -> (r: QuadtreeSpatialIndex)
        ensures
            r.wf(),
            r.points() == points@,
            r.spec_root().wf(points@),
            r.spec_root().depth == 0,
            forall|j: usize|
                #[trigger] r.spec_root().occurrences(j) == if j < points@.len() { 1nat } else { 0nat },
            points@.len() > 0 ==> is_extent(
                points@,
                0,
                r.spec_root().bounds.0 + ROOT_PADDING,
                r.spec_root().bounds.3 - ROOT_PADDING,
            ),
            points@.len() > 0 ==> is_extent(
                points@,
                1,
                r.spec_root().bounds.1 + ROOT_PADDING,
                r.spec_root().bounds.4 - ROOT_PADDING,
            ),
            points@.len() > 0 ==> is_extent(points@, 2, r.spec_root().bounds.2 as int, r.spec_root().bounds.5 as int),
    {
        let n = points.len();
        let mut min_x: i32 = 0;
        let mut min_y: i32 = 0;
        let mut min_z: i32 = 0;
        let mut max_x: i32 = 0;
        let mut max_y: i32 = 0;
        let mut max_z: i32 = 0;
        if n > 0 {
            min_x = points[0].x;
            max_x = points[0].x;
            min_y = points[0].y;
            max_y = points[0].y;
            min_z = points[0].z;
            max_z = points[0].z;
            assert(points@.take(1) =~= seq![points@[0]]);
            assert(coord(points@.take(1)[0], 0) == min_x as int);
            assert(coord(points@.take(1)[0], 1) == min_y as int);
            assert(coord(points@.take(1)[0], 2) == min_z as int);
        }
        let mut i: usize = if n > 0 { 1 } else { 0 };
        while i < n
            invariant
                i <= n,
                n == points@.len(),
                n > 0 ==> i >= 1,
                min_x <= max_x,
                min_y <= max_y,
                forall|j: int|
                    0 <= j < i ==> min_x <= #[trigger] points@[j].x <= max_x && min_y <= points@[j].y
                        <= max_y,
                i > 0 ==> is_extent(points@.take(i as int), 0, min_x as int, max_x as int),
                i > 0 ==> is_extent(points@.take(i as int), 1, min_y as int, max_y as int),
                i > 0 ==> is_extent(points@.take(i as int), 2, min_z as int, max_z as int),
            decreases n - i,
        {
            let p = points[i];
            proof {
                assert(points@.take(i + 1) =~= points@.take(i as int).push(p));
                lemma_extent_push(points@.take(i as int), p, 0, min_x as int, max_x as int);
                lemma_extent_push(points@.take(i as int), p, 1, min_y as int, max_y as int);
                lemma_extent_push(points@.take(i as int), p, 2, min_z as int, max_z as int);
            }
            if p.x < min_x {
                min_x = p.x;
            }
            if p.y < min_y {
                min_y = p.y;
            }
            if p.z < min_z {
                min_z = p.z;
            }
            if p.x > max_x {
                max_x = p.x;
            }
            if p.y > max_y {
                max_y = p.y;
            }
            if p.z > max_z {
                max_z = p.z;
            }
            assert(points@[i as int].x == p.x && points@[i as int].y == p.y);
            i += 1;
        }
        let bounds: NodeBounds = (
            min_x as i64 - ROOT_PADDING,
            min_y as i64 - ROOT_PADDING,
            min_z as i64,
            max_x as i64 + ROOT_PADDING,
            max_y as i64 + ROOT_PADDING,
            max_z as i64,
        );
        assert(points@.take(n as int) =~= points@);
        let mut root = OctreeNode { bounds, points: Vec::new(), children: None, depth: 0 };
        assert forall|j: usize| !#[trigger] root.holds(j) by {
            assert(!root.points@.contains(j));
        }
        assert forall|j: usize| #[trigger] root.occurrences(j) == 0 by {
            assert(count_of(root.points@, j) == 0);
        }
        let mut i: usize = 0;
        while i < n
            invariant
                i <= n,
                n == points@.len(),
                root.wf(points@),
                root.bounds == bounds,
                forall|j: int|
                    0 <= j < n ==> bounds_contain(bounds, #[trigger] points@[j].x as int, points@[j].y as int),
                forall|j: int| 0 <= j < i ==> #[trigger] root.holds(j as usize),
                root.depth == 0,
                forall|j: usize| #[trigger] root.occurrences(j) == if j < i { 1nat } else { 0nat },
            decreases n - i,
        {
            let ghost before = root;
            root = root.insert(i, points);
            assert forall|j: usize| #[trigger] root.occurrences(j) == if j < i + 1 { 1nat } else { 0nat } by {
                assert(before.occurrences(j) == if j < i { 1nat } else { 0nat });
            }
            assert forall|j: int| 0 <= j < i + 1 implies #[trigger] root.holds(j as usize) by {
                if j < i {
                    assert(before.holds(j as usize));
                }
            }
            i += 1;
        }
        QuadtreeSpatialIndex { root, indexed: Ghost(points@) }
    }

    /// The indices held by every node whose rectangle meets the box
    /// `[min_x, max_x] x [min_y, max_y]`: each indexed point inside the box is
    /// among them, and others may be.
    pub fn query_bbox(&self, min_x: i32, min_y: i32, max_x: i32, max_y: i32) -> (r: Vec<usize>)
        requires
            self.wf(),
        ensures
            forall|j: int| 0 <= j < r@.len() ==> #[trigger] r@[j] < self.points().len(),
            forall|j: int|
                0 <= j < r@.len() ==> self.spec_root().held_where_meets(
                    #[trigger] r@[j],
                    min_x as int,
                    min_y as int,
                    max_x as int,
                    max_y as int,
                ),
            forall|i: int|
                0 <= i < self.points().len() && in_bbox(
                    #[trigger] self.points()[i],
                    BoundingBox { min_x, min_y, max_x, max_y },
                ) ==> r@.contains(i as usize),
    {
        let mut result: Vec<usize> = Vec::new();
        self.root.query_into(
            min_x as i64,
            min_y as i64,
            max_x as i64,
            max_y as i64,
            &mut result,
            Ghost(self.indexed@),
        );
        assert forall|i: int|
            0 <= i < self.points().len() && in_bbox(
                #[trigger] self.points()[i],
                BoundingBox { min_x, min_y, max_x, max_y },
            ) implies result@.contains(i as usize) by {
            assert(self.root.holds(i as usize));
        }
        result
    }
}

} // verus!
