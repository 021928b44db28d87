use std::collections::VecDeque;
use vstd::prelude::*;
use crate::capability::{confined, is_path, lemma_path_implies_reachable, reachable, AStarPoint};
use crate::table::{lemma_distinct_keys_bound, lemma_entry_lookup, lemma_lookup_index, lemma_lookup_push, lookup, Table};

verus! {

/// A frontier entry: a point, the point it was reached from, the cost
/// accumulated so far, and the estimated total cost through this point.
///
/// The entry keeps a copy of its predecessor's identity, never a reference,
/// so the predecessor chain is rebuilt by map lookups alone.
#[derive(Clone, Copy)]
pub(crate) struct Node<P> {
    pub(crate) point: P,
    pub(crate) source: Option<P>,
    pub(crate) f: u32,
    pub(crate) g: u32,
}

/// The frontier's priority order: `n` leaves no later than `m` when its
/// estimated total cost is smaller, or on a tie when its point is the
/// greater one under the capability's order.
pub(crate) open spec fn comes_first<P: AStarPoint>(n: Node<P>, m: Node<P>) -> bool {
    n.f < m.f || (n.f == m.f && m.point.le_spec(n.point))
}

/// The priority order is total and transitive, inherited from the order on
/// costs and the capability's order on points.
pub(crate) proof fn lemma_comes_first_total<P: AStarPoint>(n: Node<P>, m: Node<P>, k: Node<P>)
    ensures
        comes_first(n, m) || comes_first(m, n),
        comes_first(n, m) && comes_first(m, k) ==> comes_first(n, k),
{
    P::le_laws(n.point, m.point, k.point);
    P::le_laws(m.point, n.point, k.point);
    P::le_laws(k.point, m.point, n.point);
    P::le_laws(k.point, n.point, m.point);
}

fn node_before<P: AStarPoint>(n: &Node<P>, m: &Node<P>) -> (r: bool)
    ensures
        r == comes_first(*n, *m),
{
    if n.f < m.f {
        true
    } else if n.f == m.f {
        m.point.le_point(&n.point)
    } else {
        false
    }
}

/// Removes and returns the frontier entry that the priority order yields
/// first, or nothing when the frontier is empty.
fn pop_best<P: AStarPoint>(frontier: &mut Vec<Node<P>>) -> (r: Option<Node<P>>)
    ensures
        r is None ==> old(frontier)@.len() == 0 && final(frontier)@ == old(frontier)@,
        r matches Some(n) ==> exists|i: int|
            0 <= i < old(frontier)@.len() && #[trigger] old(frontier)@[i] == n
                && final(frontier)@ == old(frontier)@.remove(i),
        r matches Some(n) ==> forall|j: int|
            0 <= j < final(frontier)@.len() ==> comes_first(n, #[trigger] final(frontier)@[j]),
{
    if frontier.len() == 0 {
        return None;
    }
    let mut best: usize = 0;
    let mut i: usize = 1;
    proof {
        lemma_comes_first_total(frontier@[0], frontier@[0], frontier@[0]);
    }
    while i < frontier.len()
        invariant
            0 < frontier@.len(),
            best < i <= frontier@.len(),
            forall|j: int|
                0 <= j < i ==> comes_first(frontier@[best as int], #[trigger] frontier@[j]),
        decreases frontier@.len() - i,
    {
        if node_before(&frontier[i], &frontier[best]) {
            proof {
                assert forall|j: int|
                    0 <= j < i + 1 implies comes_first(
                    frontier@[i as int],
                    #[trigger] frontier@[j],
                ) by {
                    lemma_comes_first_total(frontier@[i as int], frontier@[best as int], frontier@[j]);
                    lemma_comes_first_total(
                        frontier@[i as int],
                        frontier@[i as int],
                        frontier@[i as int],
                    );
                }
            }
            best = i;
        } else {
            proof {
                lemma_comes_first_total(frontier@[best as int], frontier@[i as int], frontier@[i as int]);
            }
        }
        i = i + 1;
    }
    let n = frontier.remove(best);
    proof {
        old(frontier)@.remove_ensures(best as int);
        assert(0 <= best < old(frontier)@.len() && old(frontier)@[best as int] == n && frontier@
            == old(frontier)@.remove(best as int));
    }
    Some(n)
}

/// A node the kernel created is sound with respect to the closed record: a
/// node without a predecessor is the start's, and a node with one names a
/// settled point of which the node's own point is a neighbor.
pub(crate) open spec fn node_wf<P: AStarPoint>(
    n: Node<P>,
    closed: Seq<(P, Node<P>)>,
    a: P,
) -> bool {
    &&& (n.source is None ==> n.point == a)
    &&& (n.source matches Some(s) ==> lookup(closed, s) is Some && s.neighbors_spec().contains(
        n.point,
    ))
}

/// As `node_wf`, but while the popped point `cur` is being expanded its own
/// entry is not yet in the closed record, so new nodes may name it.
pub(crate) open spec fn node_wf_mid<P: AStarPoint>(
    n: Node<P>,
    closed: Seq<(P, Node<P>)>,
    a: P,
    cur: P,
) -> bool {
    &&& (n.source is None ==> n.point == a)
    &&& (n.source matches Some(s) ==> (lookup(closed, s) is Some || s == cur)
        && s.neighbors_spec().contains(n.point))
}

/// Every entry of the closed record is keyed by its node's own point, and
/// every closed node is sound.
pub(crate) open spec fn inv_closed<P: AStarPoint>(closed: Seq<(P, Node<P>)>, a: P) -> bool {
    forall|i: int|
        0 <= i < closed.len() ==> (#[trigger] closed[i]).1.point == closed[i].0 && node_wf(
            closed[i].1,
            closed,
            a,
        )
}

/// Every frontier entry is sound.
pub(crate) open spec fn inv_frontier<P: AStarPoint>(
    opened: Seq<Node<P>>,
    closed: Seq<(P, Node<P>)>,
    a: P,
) -> bool {
    forall|i: int| 0 <= i < opened.len() ==> node_wf(#[trigger] opened[i], closed, a)
}

/// Every frontier entry is sound, allowing the point under expansion.
pub(crate) open spec fn inv_frontier_mid<P: AStarPoint>(
    opened: Seq<Node<P>>,
    closed: Seq<(P, Node<P>)>,
    a: P,
    cur: P,
) -> bool {
    forall|i: int| 0 <= i < opened.len() ==> node_wf_mid(#[trigger] opened[i], closed, a, cur)
}

/// Soundness of a node survives settling one more point.
pub(crate) proof fn lemma_node_wf_push<P: AStarPoint>(
    n: Node<P>,
    closed: Seq<(P, Node<P>)>,
    e: (P, Node<P>),
    a: P,
)
    requires
        node_wf(n, closed, a),
    ensures
        node_wf(n, closed.push(e), a),
{
    match n.source {
        Some(s) => {
            lemma_lookup_push(closed, e.0, e.1, s);
        },
        None => {},
    }
}

/// A node sound during the expansion of `cur` is plainly sound once `cur`'s
/// entry is settled.
pub(crate) proof fn lemma_mid_to_wf<P: AStarPoint>(
    n: Node<P>,
    closed: Seq<(P, Node<P>)>,
    a: P,
    cur: P,
    nd: Node<P>,
)
    requires
        node_wf_mid(n, closed, a, cur),
    ensures
        node_wf(n, closed.push((cur, nd)), a),
{
    match n.source {
        Some(s) => {
            lemma_lookup_push(closed, cur, nd, s);
        },
        None => {},
    }
}

/// Settling a sound node under its own point keeps the closed record sound.
pub(crate) proof fn lemma_inv_closed_push<P: AStarPoint>(
    closed: Seq<(P, Node<P>)>,
    a: P,
    nd: Node<P>,
)
    requires
        inv_closed(closed, a),
        node_wf(nd, closed, a),
    ensures
        inv_closed(closed.push((nd.point, nd)), a),
{
    let s2 = closed.push((nd.point, nd));
    assert forall|i: int|
        0 <= i < s2.len() implies (#[trigger] s2[i]).1.point == s2[i].0 && node_wf(
        s2[i].1,
        s2,
        a,
    ) by {
        if i < closed.len() {
            assert(s2[i] == closed[i]);
            lemma_node_wf_push(closed[i].1, closed, (nd.point, nd), a);
        } else {
            assert(s2[i] == (nd.point, nd));
            lemma_node_wf_push(nd, closed, (nd.point, nd), a);
        }
    }
}

/// The closed record is tidy: no point is settled twice, and every settled
/// node's predecessor was settled strictly earlier.
pub(crate) open spec fn closed_tidy<P: AStarPoint>(closed: Seq<(P, Node<P>)>) -> bool {
    &&& forall|i: int, j: int|
        0 <= i < j < closed.len() ==> (#[trigger] closed[i]).0 != (#[trigger] closed[j]).0
    &&& forall|i: int|
        0 <= i < closed.len() ==> ((#[trigger] closed[i]).1.source matches Some(s)
            ==> exists|j: int| 0 <= j < i && (#[trigger] closed[j]).0 == s)
}

/// Settling a sound node under a fresh point keeps the record tidy: the
/// point was never settled before, and the node's predecessor already was.
pub(crate) proof fn lemma_tidy_push<P: AStarPoint>(
    closed: Seq<(P, Node<P>)>,
    nd: Node<P>,
    a: P,
)
    requires
        closed_tidy(closed),
        lookup(closed, nd.point) is None,
        node_wf(nd, closed, a),
    ensures
        closed_tidy(closed.push((nd.point, nd))),
{
    let s2 = closed.push((nd.point, nd));
    assert forall|i: int, j: int|
        0 <= i < j < s2.len() implies (#[trigger] s2[i]).0 != (#[trigger] s2[j]).0 by {
        if j == closed.len() {
            assert(s2[i] == closed[i]);
            if closed[i].0 == nd.point {
                lemma_entry_lookup(closed, i);
            }
        } else {
            assert(s2[i] == closed[i] && s2[j] == closed[j]);
        }
    }
    assert forall|i: int|
        0 <= i < s2.len() implies ((#[trigger] s2[i]).1.source matches Some(s) ==> exists|j: int|
            0 <= j < i && (#[trigger] s2[j]).0 == s) by {
        if i < closed.len() {
            assert(s2[i] == closed[i]);
            match closed[i].1.source {
                Some(s0) => {
                    let j = choose|j: int| 0 <= j < i && (#[trigger] closed[j]).0 == s0;
                    assert(s2[j] == closed[j]);
                },
                None => {},
            }
        } else {
            assert(s2[i] == (nd.point, nd));
            match nd.source {
                Some(s0) => {
                    lemma_lookup_index(closed, s0);
                    let j = choose|j: int|
                        0 <= j < closed.len() && (#[trigger] closed[j]).0 == s0 && closed[j].1
                            == lookup(closed, s0)->Some_0;
                    assert(s2[j] == closed[j]);
                },
                None => {},
            }
        }
    }
}

/// The value settled for a point is a sound node carrying that very point.
pub(crate) proof fn lemma_closed_node<P: AStarPoint>(closed: Seq<(P, Node<P>)>, a: P, q: P)
    requires
        inv_closed(closed, a),
        lookup(closed, q) is Some,
    ensures
        (lookup(closed, q)->Some_0).point == q,
        node_wf(lookup(closed, q)->Some_0, closed, a),
{
    lemma_lookup_index(closed, q);
    let i = choose|i: int|
        0 <= i < closed.len() && (#[trigger] closed[i]).0 == q && closed[i].1 == lookup(
            closed,
            q,
        )->Some_0;
    assert(closed[i].1.point == closed[i].0 && node_wf(closed[i].1, closed, a));
}

/// The links of a settled predecessor chain: every element after the first
/// is settled under a node that names the element before it, and the first
/// element is settled under a node with no predecessor.
pub(crate) open spec fn chain_links<P: AStarPoint>(s: Seq<P>, closed: Seq<(P, Node<P>)>) -> bool {
    &&& forall|j: int|
        1 <= j < s.len() ==> (#[trigger] lookup(closed, s[j]) matches Some(nd) && nd.source
            == Some(s[j - 1]))
    &&& s.len() > 0 ==> (lookup(closed, s[0]) matches Some(nd) && nd.source is None)
}

/// Sliding down a settled chain: equal elements have equal predecessors, so
/// an element repeated `i` places apart puts the chain's first element that
/// far from the repeat as well.
proof fn lemma_chain_shift<P: AStarPoint>(s: Seq<P>, closed: Seq<(P, Node<P>)>, i: int, j: int)
    requires
        chain_links(s, closed),
        0 <= i <= j < s.len(),
        s[i] == s[j],
    ensures
        s[0] == s[j - i],
    decreases i,
{
    if i > 0 {
        assert(lookup(closed, s[i]) == lookup(closed, s[j]));
        assert(s[i - 1] == s[j - 1]);
        lemma_chain_shift(s, closed, i - 1, j - 1);
    }
}

/// A settled predecessor chain never repeats an element: a repeat would put
/// the link-free first element somewhere that carries a link.
pub(crate) proof fn lemma_chain_no_repeat<P: AStarPoint>(s: Seq<P>, closed: Seq<(P, Node<P>)>)
    requires
        chain_links(s, closed),
    ensures
        forall|i: int, j: int| 0 <= i < j < s.len() ==> s[i] != s[j],
{
    assert forall|i: int, j: int| 0 <= i < j < s.len() implies s[i] != s[j] by {
        if s[i] == s[j] {
            lemma_chain_shift(s, closed, i, j);
            assert(lookup(closed, s[j - i]) matches Some(nd) && nd.source == Some(s[j - i - 1]));
        }
    }
}

/// Out of a settled start, a route stays settled when every settled point
/// has all of its neighbors settled.
proof fn lemma_sealed_chain<P: AStarPoint>(closed: Seq<(P, Node<P>)>, s: Seq<P>, k: int)
    requires
        lookup(closed, s[0]) is Some,
        forall|i: int, q: P|
            #![trigger closed[i].0.neighbors_spec().contains(q)]
            0 <= i < closed.len() && closed[i].0.neighbors_spec().contains(q) ==> lookup(
                closed,
                q,
            ) is Some,
        forall|i: int|
            0 <= i < s.len() - 1 ==> (#[trigger] s[i]).neighbors_spec().contains(s[i + 1]),
        0 <= k < s.len(),
    ensures
        lookup(closed, s[k]) is Some,
    decreases k,
{
    if k > 0 {
        lemma_sealed_chain(closed, s, k - 1);
        lemma_lookup_index(closed, s[k - 1]);
        let i = choose|i: int|
            0 <= i < closed.len() && (#[trigger] closed[i]).0 == s[k - 1] && closed[i].1 == lookup(
                closed,
                s[k - 1],
            )->Some_0;
        assert(closed[i].0.neighbors_spec().contains(s[k]));
    }
}

/// Best-first search from `a` to `b` over the moves the capability offers.
///
/// The result is a route from `a` to `b` whenever one is returned at all,
/// visiting no point twice, and the empty sequence when `b` cannot be
/// reached; a search for the point it started at yields that point alone.
/// Once a point is settled it is never reopened, so predecessor chains only
/// reach back to points settled earlier and reconstruction provably
/// finishes. Cost sums saturate at `u32::MAX`, and the search loop carries
/// a step budget of `usize::MAX` so that the kernel always terminates.
///
/// When the search is confined — some finite, neighbor-closed set of points
/// within the stated bounds holds the start — a reachable goal is promised
/// a route: within such bounds the step budget and the saturating
/// arithmetic provably never come into play. An unconfined capability, such
/// as an unbounded grid, keeps the soundness half alone; there a search can
/// outlast any budget, as one for an unreachable goal on an endless graph
/// must.
#[verifier::rlimit(100)]
#[verifier::loop_isolation(true)]
pub fn astar<P: AStarPoint>(a: P, b: P) -> (path: VecDeque<P>)
    ensures
        path@.len() > 0 ==> is_path(path@, a, b),
        path@.len() > 0 ==> (forall|i: int, j: int|
            0 <= i < j < path@.len() ==> path@[i] != path@[j]),
        !reachable(a, b) ==> path@.len() == 0,
        a == b ==> path@ == seq![a],
        path@.len() == 1 ==> a == b,
        forall|world: Set<P>, width: int|
            (#[trigger] confined(world, b, width)) && world.contains(a) && reachable(a, b)
                ==> path@.len() > 0,
{
    let h0 = a.heuristic(&b);
    let start = Node { point: a, source: None, f: h0, g: 0 };
    let ghost init = start;
    let mut opened: Vec<Node<P>> = Vec::new();
    opened.push(start);
    let mut costs: Table<P, u32> = Table::new();
    let mut closed: Table<P, Node<P>> = Table::new();

    // When some confinement holds the start, fix one, so the invariants
    // below can keep the whole search inside it; without one, the clauses
    // it guards say nothing.
    let ghost ok = exists|world: Set<P>, width: int|
        confined(world, b, width) && world.contains(a);
    let ghost (world, width): (Set<P>, int) = if ok {
        choose|world: Set<P>, width: int| confined(world, b, width) && world.contains(a)
    } else {
        (arbitrary(), arbitrary())
    };
    proof {
        assert(opened@[0].point == a);
    }
    let mut steps: usize = usize::MAX;
    loop
        invariant_except_break
            inv_closed(closed.rep(), a),
            closed_tidy(closed.rep()),
            inv_frontier(opened@, closed.rep(), a),
            lookup(closed.rep(), b) is None,
            init.point == a && init.source is None,
            a == b ==> opened@ == seq![init] && closed.rep() == Seq::<(P, Node<P>)>::empty(),
            a == b ==> steps == usize::MAX,
            ok ==> confined(world, b, width) && world.contains(a),
            ok ==> (forall|j: int|
                0 <= j < opened@.len() ==> world.contains((#[trigger] opened@[j]).point)),
            ok ==> (forall|i: int|
                0 <= i < closed.rep().len() ==> world.contains((#[trigger] closed.rep()[i]).0)),
            ok ==> (forall|i: int|
                0 <= i < closed.rep().len() ==> (#[trigger] closed.rep()[i]).1.g as int <= i * (
                P::move_cost_spec() as int)),
            ok ==> (forall|j: int|
                0 <= j < opened@.len() ==> (#[trigger] opened@[j]).g as int <= closed.rep().len()
                    * (P::move_cost_spec() as int)),
            ok ==> (usize::MAX - steps) + opened@.len() <= 1 + closed.rep().len() * width,
            ok ==> (forall|q: P|
                (#[trigger] lookup(costs.rep(), q)) is Some ==> lookup(closed.rep(), q) is Some
                    || exists|j: int|
                    0 <= j < opened@.len() && (#[trigger] opened@[j]).point == q),
            ok ==> (forall|i: int, q: P|
                #![trigger closed.rep()[i].0.neighbors_spec().contains(q)]
                0 <= i < closed.rep().len() && closed.rep()[i].0.neighbors_spec().contains(q)
                    ==> lookup(closed.rep(), q) is Some || lookup(costs.rep(), q) is Some),
            ok ==> (lookup(closed.rep(), a) is Some || exists|j: int|
                0 <= j < opened@.len() && (#[trigger] opened@[j]).point == a),
        ensures
            inv_closed(closed.rep(), a),
            closed_tidy(closed.rep()),
            a == b ==> (lookup(closed.rep(), b) matches Some(n) && n.source is None),
            ok && reachable(a, b) ==> lookup(closed.rep(), b) is Some,
        decreases steps,
    {
        if steps == 0 {
            proof {
                if ok {
                    lemma_distinct_keys_bound(closed.rep(), world);
                    let l = closed.rep().len() as int;
                    assert(l * width < 0x40000000) by (nonlinear_arith)
                        requires
                            0 <= l < 0x8000,
                            0 <= width < 0x8000,
                    ;
                    assert(false);
                }
            }
            break;
        }
        steps = steps - 1;
        let ghost pre_opened = opened@;
        let popped_opt = pop_best(&mut opened);
        if popped_opt.is_none() {
            proof {
                if ok && reachable(a, b) {
                    let cl = closed.rep();
                    assert forall|i: int, q: P|
                        #![trigger cl[i].0.neighbors_spec().contains(q)]
                        0 <= i < cl.len() && cl[i].0.neighbors_spec().contains(q) implies lookup(
                        cl,
                        q,
                    ) is Some by {
                        assert(lookup(cl, q) is Some || lookup(costs.rep(), q) is Some);
                    }
                    let s = choose|s: Seq<P>| is_path(s, a, b);
                    lemma_sealed_chain(cl, s, s.len() - 1);
                    assert(false);
                }
            }
            break;
        }
        let popped = popped_opt.unwrap();
        proof {
            let i = choose|i: int|
                0 <= i < pre_opened.len() && #[trigger] pre_opened[i] == popped && opened@
                    == pre_opened.remove(i);
            pre_opened.remove_ensures(i);
            assert(node_wf(popped, closed.rep(), a));
            assert forall|j: int|
                0 <= j < opened@.len() implies node_wf(#[trigger] opened@[j], closed.rep(), a) by {
                if j < i {
                    assert(opened@[j] == pre_opened[j]);
                } else {
                    assert(opened@[j] == pre_opened[j + 1]);
                }
            }
            if ok {
                assert forall|j: int|
                    0 <= j < opened@.len() implies world.contains((#[trigger] opened@[j]).point)
                        && (opened@[j]).g as int <= closed.rep().len() * (
                    P::move_cost_spec() as int) by {
                    if j < i {
                        assert(opened@[j] == pre_opened[j]);
                    } else {
                        assert(opened@[j] == pre_opened[j + 1]);
                    }
                }
                assert(world.contains(popped.point));
                assert(popped.g as int <= closed.rep().len() * (P::move_cost_spec() as int));
                assert forall|q: P|
                    (#[trigger] lookup(costs.rep(), q)) is Some implies lookup(
                    closed.rep(),
                    q,
                ) is Some || q == popped.point || exists|j: int|
                    0 <= j < opened@.len() && (#[trigger] opened@[j]).point == q by {
                    if lookup(closed.rep(), q) is None {
                        let oj = choose|j: int|
                            0 <= j < pre_opened.len() && (#[trigger] pre_opened[j]).point == q;
                        if oj < i {
                            assert((opened@[oj]).point == q);
                        } else if oj > i {
                            assert((opened@[oj - 1]).point == q);
                        }
                    }
                }
                if lookup(closed.rep(), a) is None && a != popped.point {
                    let oj = choose|j: int|
                        0 <= j < pre_opened.len() && (#[trigger] pre_opened[j]).point == a;
                    if oj < i {
                        assert((opened@[oj]).point == a);
                    } else if oj > i {
                        assert((opened@[oj - 1]).point == a);
                    }
                }
            }
        }
        let settled = closed.get(&popped.point);
        if settled.is_some() {
            // Once a point is settled it is never reopened: a costlier
            // frontier copy of it is dropped without a second expansion.
            proof {
                if a == b {
                    assert(lookup(closed.rep(), popped.point) is None);
                }
            }
        } else if popped.point.eq_point(&b) {
            let ghost pre_closed = closed.rep();
            closed.set(popped.point, popped);
            proof {
                lemma_inv_closed_push(pre_closed, a, popped);
                lemma_tidy_push(pre_closed, popped, a);
                lemma_lookup_push(pre_closed, popped.point, popped, b);
                if a == b {
                    assert(popped == init);
                }
            }
            break;
        } else {
        proof {
            if a == b {
                assert(pre_opened == seq![init]);
                assert(popped == init);
            }
            if ok {
                let l = closed.rep().len() as int;
                let c0 = P::move_cost_spec() as int;
                assert((l + 1) * c0 == l * c0 + c0) by (nonlinear_arith);
            }
        }
        let neigh = popped.point.neighbors();
        let mut k: usize = 0;
        while k < neigh.len()
            invariant
                a != b,
                inv_closed(closed.rep(), a),
                closed_tidy(closed.rep()),
                inv_frontier_mid(opened@, closed.rep(), a, popped.point),
                lookup(closed.rep(), b) is None,
                lookup(closed.rep(), popped.point) is None,
                node_wf(popped, closed.rep(), a),
                neigh@ == popped.point.neighbors_spec(),
                k <= neigh@.len(),
                ok ==> confined(world, b, width) && world.contains(a),
                ok ==> world.contains(popped.point),
                ok ==> popped.g as int <= closed.rep().len() * (P::move_cost_spec() as int),
                ok ==> (forall|j: int|
                    0 <= j < opened@.len() ==> world.contains((#[trigger] opened@[j]).point)),
                ok ==> (forall|i: int|
                    0 <= i < closed.rep().len() ==> world.contains(
                        (#[trigger] closed.rep()[i]).0,
                    )),
                ok ==> (forall|i: int|
                    0 <= i < closed.rep().len() ==> (#[trigger] closed.rep()[i]).1.g as int <= i
                        * (P::move_cost_spec() as int)),
                ok ==> (forall|j: int|
                    0 <= j < opened@.len() ==> (#[trigger] opened@[j]).g as int <= (
                    closed.rep().len() + 1) * (P::move_cost_spec() as int)),
                ok ==> (usize::MAX - steps) + opened@.len() <= 1 + closed.rep().len() * width
                    + k,
                ok ==> (forall|q: P|
                    (#[trigger] lookup(costs.rep(), q)) is Some ==> lookup(closed.rep(), q)
                        is Some || q == popped.point || exists|j: int|
                        0 <= j < opened@.len() && (#[trigger] opened@[j]).point == q),
                ok ==> (forall|i: int, q: P|
                    #![trigger closed.rep()[i].0.neighbors_spec().contains(q)]
                    0 <= i < closed.rep().len() && closed.rep()[i].0.neighbors_spec().contains(q)
                        ==> lookup(closed.rep(), q) is Some || lookup(costs.rep(), q) is Some),
                ok ==> (lookup(closed.rep(), a) is Some || a == popped.point || exists|j: int|
                    0 <= j < opened@.len() && (#[trigger] opened@[j]).point == a),
                ok ==> (forall|t: int|
                    0 <= t < k ==> lookup(closed.rep(), #[trigger] neigh@[t]) is Some || lookup(
                        costs.rep(),
                        neigh@[t],
                    ) is Some),
            decreases neigh@.len() - k,
        {
            let n = neigh[k];
            let already = closed.get(&n);
            proof {
                if ok {
                    assert(popped.point.neighbors_spec()[k as int] == n);
                    assert(popped.point.neighbors_spec().contains(n));
                    assert(world.contains(n));
                    lemma_distinct_keys_bound(closed.rep(), world);
                    let l = closed.rep().len() as int;
                    let c0 = P::move_cost_spec() as int;
                    assert((l + 1) * c0 <= 0x8000 * 0x400) by (nonlinear_arith)
                        requires
                            0 <= l < 0x8000,
                            0 <= c0 <= 0x400,
                    ;
                    assert((l + 1) * c0 == l * c0 + c0) by (nonlinear_arith);
                }
            }
            if already.is_none() {
                let c = P::move_cost();
                let g2 = if popped.g <= u32::MAX - c {
                    popped.g + c
                } else {
                    u32::MAX
                };
                let h = n.heuristic(&b);
                let f2 = if g2 <= u32::MAX - h {
                    g2 + h
                } else {
                    u32::MAX
                };
                let prevo = costs.get(&n);
                let prev = match prevo {
                    Some(pc) => pc,
                    None => u32::MAX,
                };
                proof {
                    if ok {
                        assert(g2 as int <= (closed.rep().len() + 1) * (
                        P::move_cost_spec() as int));
                        assert(f2 < u32::MAX);
                    }
                }
                // Comparing estimated totals here stands in for comparing
                // costs so far: the heuristic depends only on the point and
                // the goal, never on the route taken to the point, so for
                // one point the two comparisons agree. A heuristic with
                // route-dependent state would have to key this record on
                // the cost so far instead.
                if prev > f2 {
                    let ghost pre_costs = costs.rep();
                    costs.set(n, f2);
                    let ghost pre_mid = opened@;
                    opened.push(Node { point: n, source: Some(popped.point), f: f2, g: g2 });
                    proof {
                        assert(popped.point.neighbors_spec()[k as int] == n);
                        assert(popped.point.neighbors_spec().contains(n));
                        assert forall|j: int|
                            0 <= j < opened@.len() implies node_wf_mid(
                            #[trigger] opened@[j],
                            closed.rep(),
                            a,
                            popped.point,
                        ) by {
                            if j < pre_mid.len() {
                                assert(opened@[j] == pre_mid[j]);
                            }
                        }
                        if ok {
                            assert(opened@[opened@.len() - 1].point == n);
                            assert forall|j: int|
                                0 <= j < opened@.len() implies world.contains(
                                (#[trigger] opened@[j]).point,
                            ) && (opened@[j]).g as int <= (closed.rep().len() + 1) * (
                            P::move_cost_spec() as int) by {
                                if j < pre_mid.len() {
                                    assert(opened@[j] == pre_mid[j]);
                                }
                            }
                            assert forall|q: P|
                                (#[trigger] lookup(costs.rep(), q)) is Some implies lookup(
                                closed.rep(),
                                q,
                            ) is Some || q == popped.point || exists|j: int|
                                0 <= j < opened@.len() && (#[trigger] opened@[j]).point == q by {
                                lemma_lookup_push(pre_costs, n, f2, q);
                                if q == n {
                                    assert((opened@[opened@.len() - 1]).point == q);
                                } else if lookup(closed.rep(), q) is None && q != popped.point
                                    && lookup(pre_costs, q) is Some {
                                    let oj = choose|j: int|
                                        0 <= j < pre_mid.len() && (#[trigger] pre_mid[j]).point
                                            == q;
                                    assert((opened@[oj]).point == q);
                                }
                            }
                            assert forall|i: int, q: P|
                                #![trigger closed.rep()[i].0.neighbors_spec().contains(q)]
                                0 <= i < closed.rep().len()
                                    && closed.rep()[i].0.neighbors_spec().contains(q) implies
                                lookup(closed.rep(), q) is Some || lookup(costs.rep(), q)
                                    is Some by {
                                lemma_lookup_push(pre_costs, n, f2, q);
                            }
                            if lookup(closed.rep(), a) is None && a != popped.point {
                                let oj = choose|j: int|
                                    0 <= j < pre_mid.len() && (#[trigger] pre_mid[j]).point == a;
                                assert((opened@[oj]).point == a);
                            }
                            assert forall|t: int|
                                0 <= t < k + 1 implies lookup(
                                closed.rep(),
                                #[trigger] neigh@[t],
                            ) is Some || lookup(costs.rep(), neigh@[t]) is Some by {
                                lemma_lookup_push(pre_costs, n, f2, neigh@[t]);
                            }
                        }
                    }
                } else {
                    proof {
                        if ok {
                            if lookup(costs.rep(), n) is None {
                                assert(prev == u32::MAX);
                                assert(false);
                            }
                        }
                    }
                }
            } else {
                proof {
                    if ok {
                        assert(lookup(closed.rep(), n) is Some);
                    }
                }
            }
            k = k + 1;
        }
        let ghost pre_closed = closed.rep();
        closed.set(popped.point, popped);
        proof {
            lemma_inv_closed_push(pre_closed, a, popped);
            lemma_tidy_push(pre_closed, popped, a);
            lemma_lookup_push(pre_closed, popped.point, popped, b);
            assert forall|j: int|
                0 <= j < opened@.len() implies node_wf(#[trigger] opened@[j], closed.rep(), a) by {
                lemma_mid_to_wf(opened@[j], pre_closed, a, popped.point, popped);
            }
            if ok {
                let cl2 = closed.rep();
                let c0 = P::move_cost_spec() as int;
                let l = pre_closed.len() as int;
                lemma_lookup_push(pre_closed, popped.point, popped, popped.point);
                lemma_lookup_push(pre_closed, popped.point, popped, a);
                assert(popped.point.neighbors_spec().len() <= width);
                assert((l + 1) * width == l * width + width) by (nonlinear_arith);
                assert((l + 1) * c0 == l * c0 + c0) by (nonlinear_arith);
                assert forall|q: P|
                    (#[trigger] lookup(costs.rep(), q)) is Some implies lookup(cl2, q) is Some
                        || exists|j: int|
                        0 <= j < opened@.len() && (#[trigger] opened@[j]).point == q by {
                    lemma_lookup_push(pre_closed, popped.point, popped, q);
                }
                assert forall|i: int, q: P|
                    #![trigger cl2[i].0.neighbors_spec().contains(q)]
                    0 <= i < cl2.len() && cl2[i].0.neighbors_spec().contains(q) implies lookup(
                    cl2,
                    q,
                ) is Some || lookup(costs.rep(), q) is Some by {
                    lemma_lookup_push(pre_closed, popped.point, popped, q);
                    if i < pre_closed.len() {
                        assert(cl2[i] == pre_closed[i]);
                        assert(pre_closed[i].0.neighbors_spec().contains(q));
                    } else {
                        assert(cl2[i].0 == popped.point);
                        assert(neigh@.contains(q));
                        let t = choose|t: int| 0 <= t < neigh@.len() && neigh@[t] == q;
                        assert(lookup(pre_closed, neigh@[t]) is Some || lookup(
                            costs.rep(),
                            neigh@[t],
                        ) is Some);
                    }
                }
            }
        }
        }
    }

    let mut path: VecDeque<P> = VecDeque::new();
    let mut last = b;
    let ghost mut fuel: int = closed.rep().len() as int + 1;
    let ghost mut lastrank: int = 0;
    proof {
        if lookup(closed.rep(), b) is Some {
            lemma_lookup_index(closed.rep(), b);
            lastrank = choose|i: int|
                0 <= i < closed.rep().len() && (#[trigger] closed.rep()[i]).0 == b
                    && closed.rep()[i].1 == lookup(closed.rep(), b)->Some_0;
        }
    }
    loop
        invariant_except_break
            inv_closed(closed.rep(), a),
            closed_tidy(closed.rep()),
            0 <= fuel,
            lookup(closed.rep(), last) is Some ==> (0 <= lastrank < closed.rep().len()
                && closed.rep()[lastrank].0 == last && lastrank < fuel),
            path@.len() == 0 ==> last == b,
            path@.len() > 0 ==> path@.last() == b,
            path@.len() > 0 ==> (lookup(closed.rep(), path@[0]) matches Some(nd) && nd.source
                == Some(last)),
            forall|j: int|
                1 <= j < path@.len() ==> (#[trigger] lookup(closed.rep(), path@[j]) matches Some(
                    nd,
                ) && nd.source == Some(path@[j - 1])),
            forall|i: int|
                0 <= i < path@.len() - 1 ==> (#[trigger] path@[i]).neighbors_spec().contains(
                    path@[i + 1],
                ),
            a == b ==> (lookup(closed.rep(), b) matches Some(nd) && nd.source is None),
            a == b ==> path@.len() == 0,
        ensures
            path@.len() > 0 ==> is_path(path@, a, b),
            path@.len() > 0 ==> (forall|i: int, j: int|
                0 <= i < j < path@.len() ==> path@[i] != path@[j]),
            path@.len() == 0 ==> lookup(closed.rep(), b) is None,
            a == b ==> path@ =~= seq![a],
        decreases fuel,
    {
        let found = closed.get(&last);
        if found.is_none() {
            proof {
                if path@.len() > 0 {
                    lemma_closed_node(closed.rep(), a, path@[0]);
                }
            }
            break;
        }
        let nd = found.unwrap();
        proof {
            lemma_closed_node(closed.rep(), a, last);
            fuel = fuel - 1;
        }
        let ghost prev_path = path@;
        let ghost prev_last = last;
        path.push_front(last);
        proof {
            assert(path@[0] == prev_last);
            assert forall|i: int|
                0 <= i < path@.len() - 1 implies (#[trigger] path@[i]).neighbors_spec().contains(
                path@[i + 1],
            ) by {
                if i == 0 {
                    if prev_path.len() > 0 {
                        lemma_closed_node(closed.rep(), a, prev_path[0]);
                        assert(path@[1] == prev_path[0]);
                    }
                } else {
                    assert(path@[i] == prev_path[i - 1]);
                    assert(path@[i + 1] == prev_path[i]);
                    assert(prev_path[i - 1].neighbors_spec().contains(prev_path[i]));
                }
            }
            assert forall|j: int|
                1 <= j < path@.len() implies (#[trigger] lookup(closed.rep(), path@[j]) matches Some(
                nd2,
            ) && nd2.source == Some(path@[j - 1])) by {
                if j == 1 {
                    assert(path@[1] == prev_path[0]);
                    assert(path@[0] == prev_last);
                } else {
                    assert(path@[j] == prev_path[j - 1]);
                    assert(path@[j - 1] == prev_path[j - 2]);
                }
            }
        }
        match nd.source {
            None => {
                proof {
                    assert(last == a);
                    if prev_path.len() == 0 {
                        assert(path@ =~= seq![a]);
                    }
                    assert(chain_links(path@, closed.rep()));
                    lemma_chain_no_repeat(path@, closed.rep());
                }
                break;
            },
            Some(s) => {
                last = s;
                proof {
                    if a == b {
                        assert(false);
                    }
                    lemma_lookup_index(closed.rep(), prev_last);
                    let i0 = choose|i: int|
                        0 <= i < closed.rep().len() && (#[trigger] closed.rep()[i]).0 == prev_last
                            && closed.rep()[i].1 == lookup(closed.rep(), prev_last)->Some_0;
                    if i0 < lastrank {
                        assert(closed.rep()[i0].0 != closed.rep()[lastrank].0);
                    } else if lastrank < i0 {
                        assert(closed.rep()[lastrank].0 != closed.rep()[i0].0);
                    }
                    assert(closed.rep()[lastrank].1 == nd);
                    let j = choose|j: int| 0 <= j < lastrank && (#[trigger] closed.rep()[j]).0 == s;
                    lemma_entry_lookup(closed.rep(), j);
                    lastrank = j;
                }
            },
        }
    }
    proof {
        if a == b {
            assert(path@ =~= seq![a]);
        }
        if path@.len() > 0 {
            lemma_path_implies_reachable(path@, a, b);
        }
        assert forall|w2: Set<P>, d2: int|
            (#[trigger] confined(w2, b, d2)) && w2.contains(a) && reachable(a, b) implies path@.len()
            > 0 by {
            assert(ok);
        }
    }
    path
}

} // verus!
