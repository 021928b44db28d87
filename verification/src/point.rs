use vstd::prelude::*;
use crate::capability::{is_path, reachable, AStarPoint};

verus! {

/// A grid location with four-directional movement, the reference capability
/// for the search kernel.
#[derive(Debug, Clone, Copy, PartialEq, Eq, Hash, PartialOrd, Ord)]
pub struct Point {
    pub x: i32,
    pub y: i32,
}

/// The distance between two integers on the number line.
pub open spec fn absdiff_spec(a: int, b: int) -> int {
    if a >= b {
        a - b
    } else {
        b - a
    }
}

fn absdiff(a: i32, b: i32) -> (r: u32)
    ensures
        r == absdiff_spec(a as int, b as int),
{
    if a > b {
        (a as i64 - b as i64) as u32
    } else {
        (b as i64 - a as i64) as u32
    }
}

impl Point {
    pub fn new(x: i32, y: i32) -> (p: Self)
        ensures
            p == (Point { x, y }),
    {
        Point { x, y }
    }
}

/// `q` lies one four-directional move away from `p`.
pub open spec fn is_step(p: Point, q: Point) -> bool {
    ||| q.x == p.x && (q.y == p.y + 1 || q.y == p.y - 1)
    ||| q.y == p.y && (q.x == p.x + 1 || q.x == p.x - 1)
}

impl AStarPoint for Point {
    /// Lexicographic order on the coordinates, matching the derived order.
    open spec fn le_spec(self, other: Self) -> bool {
        self.x < other.x || (self.x == other.x && self.y <= other.y)
    }

    /// The four axis-aligned neighbors; a coordinate at the end of its range
    /// has no move past it.
    open spec fn neighbors_spec(self) -> Seq<Self> {
        let up = if self.y < i32::MAX {
            seq![Point { x: self.x, y: (self.y + 1) as i32 }]
        } else {
            Seq::<Point>::empty()
        };
        let down = if self.y > i32::MIN {
            seq![Point { x: self.x, y: (self.y - 1) as i32 }]
        } else {
            Seq::<Point>::empty()
        };
        let right = if self.x < i32::MAX {
            seq![Point { x: (self.x + 1) as i32, y: self.y }]
        } else {
            Seq::<Point>::empty()
        };
        let left = if self.x > i32::MIN {
            seq![Point { x: (self.x - 1) as i32, y: self.y }]
        } else {
            Seq::<Point>::empty()
        };
        up + down + right + left
    }

    /// The Manhattan distance, capped at the largest representable cost.
    open spec fn heuristic_spec(self, goal: Self) -> u32 {
        let d = absdiff_spec(self.x as int, goal.x as int) + absdiff_spec(
            self.y as int,
            goal.y as int,
        );
        if d > u32::MAX {
            u32::MAX
        } else {
            d as u32
        }
    }

    open spec fn move_cost_spec() -> u32 {
        1
    }

    proof fn le_laws(a: Self, b: Self, c: Self) {
    }

    fn move_cost() -> u32 {
        1
    }

    fn eq_point(&self, other: &Self) -> bool {
        self.x == other.x && self.y == other.y
    }

    fn le_point(&self, other: &Self) -> bool {
        self.x < other.x || (self.x == other.x && self.y <= other.y)
    }

    fn neighbors(&self) -> (r: Vec<Self>)
    {
        let mut r: Vec<Point> = Vec::new();
        if self.y < i32::MAX {
            r.push(Point { x: self.x, y: self.y + 1 });
        }
        if self.y > i32::MIN {
            r.push(Point { x: self.x, y: self.y - 1 });
        }
        if self.x < i32::MAX {
            r.push(Point { x: self.x + 1, y: self.y });
        }
        if self.x > i32::MIN {
            r.push(Point { x: self.x - 1, y: self.y });
        }
        proof {
            assert(r@ =~= self.neighbors_spec());
        }
        r
    }

    fn heuristic(&self, goal: &Self) -> u32 {
        let dx = absdiff(self.x, goal.x);
        let dy = absdiff(self.y, goal.y);
        if dx <= u32::MAX - dy {
            dx + dy
        } else {
            u32::MAX
        }
    }
}

/// A grid point's neighbor enumeration holds exactly the points one
/// four-directional move away.
pub proof fn lemma_neighbors_are_steps(p: Point, q: Point)
    ensures
        p.neighbors_spec().contains(q) <==> is_step(p, q),
{
    if is_step(p, q) {
        let ns = p.neighbors_spec();
        assert(exists|i: int| 0 <= i < ns.len() && ns[i] == q) by {
            if q.x == p.x && q.y == p.y + 1 {
                assert(ns[0] == q);
            } else if q.x == p.x && q.y == p.y - 1 {
                assert(ns[if p.y < i32::MAX { 1int } else { 0int }] == q);
            } else if q.y == p.y && q.x == p.x + 1 {
                let i = (if p.y < i32::MAX { 1int } else { 0int }) + (if p.y > i32::MIN {
                    1int
                } else {
                    0int
                });
                assert(ns[i] == q);
            } else {
                let i = (if p.y < i32::MAX { 1int } else { 0int }) + (if p.y > i32::MIN {
                    1int
                } else {
                    0int
                }) + (if p.x < i32::MAX { 1int } else { 0int });
                assert(ns[i] == q);
            }
        }
    }
}

/// Four-directional moves are mutual: each grid point is a neighbor of each
/// of its own neighbors.
pub proof fn lemma_neighbors_mutual(p: Point, q: Point)
    ensures
        p.neighbors_spec().contains(q) <==> q.neighbors_spec().contains(p),
{
    lemma_neighbors_are_steps(p, q);
    lemma_neighbors_are_steps(q, p);
}

/// Along any grid route, consecutive points are mutual neighbors: the step
/// taken forward could also be taken back.
pub proof fn lemma_route_steps_mutual(s: Seq<Point>, a: Point, b: Point)
    requires
        is_path(s, a, b),
    ensures
        forall|i: int|
            0 <= i < s.len() - 1 ==> (#[trigger] s[i + 1]).neighbors_spec().contains(s[i]),
{
    assert forall|i: int|
        0 <= i < s.len() - 1 implies (#[trigger] s[i + 1]).neighbors_spec().contains(s[i]) by {
        assert(s[i].neighbors_spec().contains(s[i + 1]));
        lemma_neighbors_mutual(s[i], s[i + 1]);
    }
}

/// The Manhattan distance between two grid points, unclamped.
pub open spec fn manhattan(p: Point, q: Point) -> int {
    absdiff_spec(p.x as int, q.x as int) + absdiff_spec(p.y as int, q.y as int)
}

/// The Manhattan heuristic is consistent: one move changes the estimated
/// distance to any goal by at most one, the cost of that move.
pub proof fn lemma_manhattan_consistent(p: Point, q: Point, goal: Point)
    requires
        p.neighbors_spec().contains(q),
    ensures
        manhattan(p, goal) - 1 <= manhattan(q, goal) <= manhattan(p, goal) + 1,
{
    lemma_neighbors_are_steps(p, q);
}

/// The Manhattan heuristic is admissible: every grid route from `a` to `b`
/// takes at least one move per unit of Manhattan distance, so the estimate
/// never exceeds the cost of any route.
pub proof fn lemma_manhattan_admissible(s: Seq<Point>, a: Point, b: Point)
    requires
        is_path(s, a, b),
    ensures
        manhattan(a, b) <= s.len() - 1,
    decreases s.len(),
{
    if s.len() == 1 {
        assert(a == b);
    } else {
        let t = s.subrange(1, s.len() as int);
        assert(is_path(t, s[1], b)) by {
            assert(t.last() == s.last());
            assert forall|j: int|
                0 <= j < t.len() - 1 implies (#[trigger] t[j]).neighbors_spec().contains(
                t[j + 1],
            ) by {
                assert(t[j] == s[j + 1]);
                assert(t[j + 1] == s[j + 2]);
                assert(s[j + 1].neighbors_spec().contains(s[j + 2]));
            }
        }
        lemma_manhattan_admissible(t, s[1], b);
        lemma_manhattan_consistent(a, s[1], b);
    }
}

/// A fixture capability with no moves at all: every point is isolated, so a
/// search between two distinct points exhausts its frontier at once.
#[derive(Debug, Clone, Copy, PartialEq, Eq, Hash)]
pub struct IsolatedPoint {
    pub id: u32,
}

impl AStarPoint for IsolatedPoint {
    open spec fn le_spec(self, other: Self) -> bool {
        self.id <= other.id
    }

    open spec fn neighbors_spec(self) -> Seq<Self> {
        Seq::<IsolatedPoint>::empty()
    }

    open spec fn heuristic_spec(self, goal: Self) -> u32 {
        0
    }

    open spec fn move_cost_spec() -> u32 {
        1
    }

    proof fn le_laws(a: Self, b: Self, c: Self) {
    }

    fn move_cost() -> u32 {
        1
    }

    fn eq_point(&self, other: &Self) -> bool {
        self.id == other.id
    }

    fn le_point(&self, other: &Self) -> bool {
        self.id <= other.id
    }

    fn neighbors(&self) -> Vec<Self> {
        Vec::new()
    }

    fn heuristic(&self, goal: &Self) -> u32 {
        0
    }
}

/// No isolated point can reach any other: there are no moves to take.
pub proof fn lemma_isolated_unreachable(a: IsolatedPoint, b: IsolatedPoint)
    requires
        a != b,
    ensures
        !reachable(a, b),
{
    if reachable(a, b) {
        let s = choose|s: Seq<IsolatedPoint>| is_path(s, a, b);
        if s.len() == 1 {
            assert(a == b);
        } else {
            assert(s[0].neighbors_spec().contains(s[1]));
        }
    }
}

} // verus!
