use vstd::prelude::*;

verus! {

/// The capability a point type must supply to the search kernel: value
/// semantics, a total tie-break order, a uniform per-move cost, neighbor
/// enumeration, and a heuristic lower bound on remaining cost.
///
/// Each executable operation is pinned to a mathematical counterpart, so the
/// kernel's contracts can speak about neighbor sets and costs directly.
/// The heuristic is assumed admissible and consistent for optimality, but the
/// kernel's stated guarantees hold for any implementation of this trait.
pub trait AStarPoint: Sized + Copy {
    /// The order used to break ties among frontier entries with equal
    /// estimated total cost.
    spec fn le_spec(self, other: Self) -> bool;

    /// All points reachable from this point in one move; may be empty.
    spec fn neighbors_spec(self) -> Seq<Self>;

    /// The estimate of the cost remaining from this point to the goal.
    spec fn heuristic_spec(self, goal: Self) -> u32;

    /// The cost applied to every single move.
    spec fn move_cost_spec() -> u32;

    /// The tie-break order is total, transitive and antisymmetric.
    proof fn le_laws(a: Self, b: Self, c: Self)
        ensures
            a.le_spec(b) || b.le_spec(a),
            a.le_spec(b) && b.le_spec(c) ==> a.le_spec(c),
            a.le_spec(b) && b.le_spec(a) ==> a == b,
    ;

    fn move_cost() -> (c: u32)
        ensures
            c == Self::move_cost_spec(),
    ;

    fn eq_point(&self, other: &Self) -> (r: bool)
        ensures
            r == (*self == *other),
    ;

    fn le_point(&self, other: &Self) -> (r: bool)
        ensures
            r == self.le_spec(*other),
    ;

    fn neighbors(&self) -> (r: Vec<Self>)
        ensures
            r@ == self.neighbors_spec(),
    ;

    fn heuristic(&self, goal: &Self) -> (r: u32)
        ensures
            r == self.heuristic_spec(*goal),
    ;
}

/// `s` is a route from `a` to `b`: non-empty, it starts at `a`, ends at `b`,
/// and every element after the first is a neighbor of the one before it.
pub open spec fn is_path<P: AStarPoint>(s: Seq<P>, a: P, b: P) -> bool {
    &&& s.len() > 0
    &&& s[0] == a
    &&& s.last() == b
    &&& forall|i: int|
        0 <= i < s.len() - 1 ==> (#[trigger] s[i]).neighbors_spec().contains(s[i + 1])
}

/// Some sequence of single moves connects `a` to `b`.
pub open spec fn reachable<P: AStarPoint>(a: P, b: P) -> bool {
    exists|s: Seq<P>| is_path(s, a, b)
}

/// A confinement of a search toward `goal`: a finite set of points holding
/// every point one move away from any of its points, with bounds generous
/// enough that the kernel's saturating cost arithmetic and its step budget
/// provably never come into play. `width` bounds every point's neighbor
/// count.
pub open spec fn confined<P: AStarPoint>(world: Set<P>, goal: P, width: int) -> bool {
    &&& world.finite()
    &&& world.len() < 0x8000
    &&& 0 <= width < 0x8000
    &&& P::move_cost_spec() <= 0x400
    &&& forall|p: P, q: P|
        world.contains(p) && (#[trigger] p.neighbors_spec().contains(q)) ==> world.contains(q)
    &&& forall|p: P| world.contains(p) ==> (#[trigger] p.neighbors_spec()).len() <= width
    &&& forall|p: P| world.contains(p) ==> (#[trigger] p.heuristic_spec(goal)) < 0x40000000
}

/// A route is a witness of reachability; hence a goal that is not reachable
/// admits no route at all, and the kernel can only answer with an empty
/// result for it.
pub proof fn lemma_path_implies_reachable<P: AStarPoint>(s: Seq<P>, a: P, b: P)
    requires
        is_path(s, a, b),
    ensures
        reachable(a, b),
{
}

} // verus!
