use crate::e::{EView, FullEdge, E};
use crate::g::{edges_within, epsilon_view, finals_view, GView, G};
use crate::int_seq::{A, REFLECT};
use crate::collect::{reachable, NodeSetView};
use crate::n::{edges_view, NodeId, N};
use crate::p::{PView, PartialEdge, P};
use crate::ranged_graph::{
    full_sigma_covered, nonsink_new, transitions_view, RGView, Range, RangeView, RangedGraph,
    Transition, TransitionView, Transitions,
};
use crate::v::V;
use vstd::prelude::*;

verus! {

/// Whether the edge accepts the symbol `x`.
pub open spec fn covers(e: EView, x: A) -> bool {
    e.from_exclusive < x && x <= e.to_inclusive
}

/// The list `order` of edge indices with `k` put behind the last index whose
/// edge does not begin later than the edge `k`.
pub open spec fn insert_by_from(edges: Seq<(EView, NodeId)>, order: Seq<usize>, k: usize) -> Seq<
    usize,
>
    decreases order.len(),
{
    if order.len() == 0 {
        seq![k]
    } else if edges[order.last() as int].0.from_exclusive <= edges[k as int].0.from_exclusive {
        order.push(k)
    } else {
        insert_by_from(edges, order.drop_last(), k).push(order.last())
    }
}

/// The indices of the first `n` edges in the order in which their intervals
/// begin; edges that begin together stand in the order of the list.
pub open spec fn activation_order(edges: Seq<(EView, NodeId)>, n: nat) -> Seq<usize>
    decreases n,
{
    if n == 0 {
        Seq::empty()
    } else {
        insert_by_from(edges, activation_order(edges, (n - 1) as nat), (n - 1) as usize)
    }
}

/// The transition that an edge becomes, where `index_of` says which state each
/// node is.
pub open spec fn transition_of(edge: (EView, NodeId), index_of: Seq<usize>) -> TransitionView {
    TransitionView {
        weight: edge.0.partial.weight,
        output: edge.0.partial.output,
        target: Some(index_of[edge.1 as int]),
    }
}

/// The transitions of those edges among `order` that accept `x`, in that order.
pub open spec fn active(
    edges: Seq<(EView, NodeId)>,
    index_of: Seq<usize>,
    order: Seq<usize>,
    x: A,
) -> Seq<TransitionView>
    decreases order.len(),
{
    if order.len() == 0 {
        Seq::empty()
    } else {
        let rest = active(edges, index_of, order.drop_last(), x);
        let k = order.last();
        if covers(edges[k as int].0, x) {
            rest.push(transition_of(edges[k as int], index_of))
        } else {
            rest
        }
    }
}

/// The strictly increasing list `points` with `x` put in its place, unless it
/// is there already.
pub open spec fn insert_point(points: Seq<A>, x: A) -> Seq<A>
    decreases points.len(),
{
    if points.len() == 0 {
        seq![x]
    } else if points.last() < x {
        points.push(x)
    } else if points.last() == x {
        points
    } else {
        insert_point(points.drop_last(), x).push(points.last())
    }
}

/// The symbols at which the set of accepting edges can change, in increasing
/// order: where one of the first `n` edges begins or ends, and the greatest
/// symbol. The reflection marker is not among them.
pub open spec fn breakpoints(edges: Seq<(EView, NodeId)>, n: nat) -> Seq<A>
    decreases n,
{
    if n == 0 {
        seq![A::MAX]
    } else {
        let before = breakpoints(edges, (n - 1) as nat);
        let e = edges[n - 1].0;
        let with_from = if e.from_exclusive > REFLECT {
            insert_point(before, e.from_exclusive)
        } else {
            before
        };
        insert_point(with_from, e.to_inclusive)
    }
}

/// The dispatch table of a state with the given edges: one range for each
/// breakpoint, with the transitions of the edges that accept it.
pub open spec fn table(edges: Seq<(EView, NodeId)>, index_of: Seq<usize>) -> Seq<RangeView> {
    breakpoints(edges, edges.len()).map_values(
        |b: A|
            RangeView {
                input: b,
                edges: active(edges, index_of, activation_order(edges, edges.len()), b),
            },
    )
}

/// Whether the list increases strictly.
pub open spec fn increasing(points: Seq<A>) -> bool {
    forall|i: int, j: int| 0 <= i < j < points.len() ==> points[i] < points[j]
}

/// Putting a point in its place keeps the list increasing, keeps what was in
/// it, and adds nothing but the point.
pub proof fn lemma_insert_point(points: Seq<A>, x: A)
    requires
        increasing(points),
    ensures
        increasing(insert_point(points, x)),
        insert_point(points, x).contains(x),
        forall|y: A| points.contains(y) ==> insert_point(points, x).contains(y),
        forall|y: A| insert_point(points, x).contains(y) ==> points.contains(y) || y == x,
        insert_point(points, x).len() >= points.len(),
        insert_point(points, x).len() <= points.len() + 1,
        points.len() > 0 ==> insert_point(points, x).last() == if points.last() < x {
            x
        } else {
            points.last()
        },
        points.len() > 0 ==> insert_point(points, x)[0] == if points[0] <= x {
            points[0]
        } else {
            x
        },
    decreases points.len(),
{
    let r = insert_point(points, x);
    if points.len() == 0 {
        assert(r[0] == x);
    } else if points.last() < x {
        assert(r[points.len() as int] == x);
        assert forall|y: A| points.contains(y) implies r.contains(y) by {
            let i = choose|i: int| 0 <= i < points.len() && points[i] == y;
            assert(r[i] == y);
        }
        assert forall|y: A| r.contains(y) implies points.contains(y) || y == x by {
            let i = choose|i: int| 0 <= i < r.len() && r[i] == y;
            if i < points.len() {
                assert(points[i] == y);
            }
        }
    } else if points.last() == x {
        assert(points[points.len() - 1] == x);
    } else {
        let front = points.drop_last();
        assert(increasing(front));
        lemma_insert_point(front, x);
        let inner = insert_point(front, x);
        assert forall|i: int, j: int| 0 <= i < j < r.len() implies r[i] < r[j] by {
            if j == inner.len() {
                assert(inner.contains(inner[i]));
                if front.contains(inner[i]) {
                    let a = choose|a: int| 0 <= a < front.len() && front[a] == inner[i];
                    assert(points[a] < points[points.len() - 1]);
                }
            }
        }
        assert(r[inner.len() as int] == points.last());
        assert forall|y: A| points.contains(y) implies r.contains(y) by {
            let i = choose|i: int| 0 <= i < points.len() && points[i] == y;
            if i < front.len() {
                assert(front[i] == y);
                assert(front.contains(y));
                let a = choose|a: int| 0 <= a < inner.len() && inner[a] == y;
                assert(r[a] == y);
            }
        }
        assert(inner.contains(x));
        let ax = choose|a: int| 0 <= a < inner.len() && inner[a] == x;
        assert(r[ax] == x);
        assert forall|y: A| r.contains(y) implies points.contains(y) || y == x by {
            let i = choose|i: int| 0 <= i < r.len() && r[i] == y;
            if i < inner.len() {
                assert(inner.contains(inner[i]));
                if front.contains(y) {
                    let a = choose|a: int| 0 <= a < front.len() && front[a] == y;
                    assert(points[a] == y);
                }
            } else {
                assert(points[points.len() - 1] == y);
            }
        }
        if front.len() > 0 {
            assert(points[0] == front[0]);
        } else {
            assert(points[0] == points.last());
        }
    }
}

/// The breakpoints increase strictly from above the reflection marker up to
/// the greatest symbol.
pub proof fn lemma_breakpoints(edges: Seq<(EView, NodeId)>, n: nat)
    requires
        n <= edges.len(),
        forall|i: int|
            0 <= i < edges.len() ==> (#[trigger] edges[i]).0.from_exclusive < edges[i].0.to_inclusive,
    ensures
        increasing(breakpoints(edges, n)),
        breakpoints(edges, n).len() > 0,
        breakpoints(edges, n).len() <= 2 * n + 1,
        breakpoints(edges, n).last() == A::MAX,
        breakpoints(edges, n)[0] > REFLECT,
        forall|k: int|
            0 <= k < n ==> breakpoints(edges, n).contains((#[trigger] edges[k]).0.to_inclusive),
        forall|k: int|
            0 <= k < n && (#[trigger] edges[k]).0.from_exclusive > REFLECT ==> breakpoints(
                edges,
                n,
            ).contains(edges[k].0.from_exclusive),
        forall|y: A|
            breakpoints(edges, n).contains(y) ==> y == A::MAX || exists|k: int|
                0 <= k < n && ((#[trigger] edges[k]).0.to_inclusive == y
                    || edges[k].0.from_exclusive == y),
    decreases n,
{
    if n == 0 {
        let b = breakpoints(edges, n);
        assert(b[0] == A::MAX);
        assert forall|y: A| b.contains(y) implies y == A::MAX by {
            let i = choose|i: int| 0 <= i < b.len() && b[i] == y;
        }
    } else {
        lemma_breakpoints(edges, (n - 1) as nat);
        let before = breakpoints(edges, (n - 1) as nat);
        let e = edges[n - 1].0;
        lemma_insert_point(before, e.from_exclusive);
        let with_from = if e.from_exclusive > REFLECT {
            insert_point(before, e.from_exclusive)
        } else {
            before
        };
        lemma_insert_point(with_from, e.to_inclusive);
        let b = breakpoints(edges, n);
        assert forall|k: int| 0 <= k < n implies b.contains((#[trigger] edges[k]).0.to_inclusive) by {
            if k < n - 1 {
                assert(before.contains(edges[k].0.to_inclusive));
            }
        }
        assert forall|k: int|
            0 <= k < n && (#[trigger] edges[k]).0.from_exclusive > REFLECT implies b.contains(
            edges[k].0.from_exclusive,
        ) by {
            if k < n - 1 {
                assert(before.contains(edges[k].0.from_exclusive));
            }
        }
        assert forall|y: A| b.contains(y) implies y == A::MAX || exists|k: int|
            0 <= k < n && ((#[trigger] edges[k]).0.to_inclusive == y || edges[k].0.from_exclusive
                == y) by {
            if y != A::MAX {
                if before.contains(y) {
                    let k = choose|k: int|
                        0 <= k < n - 1 && ((#[trigger] edges[k]).0.to_inclusive == y
                            || edges[k].0.from_exclusive == y);
                    assert(0 <= k < n);
                } else {
                    assert(edges[n - 1].0.to_inclusive == y || edges[n - 1].0.from_exclusive == y);
                }
            }
        }
    }
}


/// Where a point goes: behind everything that is not above it.
pub proof fn lemma_insert_point_at(points: Seq<A>, x: A, i: int)
    requires
        0 <= i <= points.len(),
        forall|j: int| i <= j < points.len() ==> points[j] > x,
        i > 0 ==> points[i - 1] <= x,
    ensures
        insert_point(points, x) == if i > 0 && points[i - 1] == x {
            points
        } else {
            points.insert(i, x)
        },
    decreases points.len() - i,
{
    if points.len() == 0 {
        assert(points.insert(0, x) =~= seq![x]);
    } else if i == points.len() {
        if points.last() < x {
            assert(points.insert(i, x) =~= points.push(x));
        }
    } else {
        assert(points.last() > x);
        let front = points.drop_last();
        lemma_insert_point_at(front, x, i);
        if i > 0 && points[i - 1] == x {
            assert(front.push(points.last()) =~= points);
        } else {
            assert(front.insert(i, x).push(points.last()) =~= points.insert(i, x));
        }
    }
}

/// Where an edge index goes: behind every index whose edge does not begin
/// later.
pub proof fn lemma_insert_by_from_at(
    edges: Seq<(EView, NodeId)>,
    order: Seq<usize>,
    k: usize,
    i: int,
)
    requires
        0 <= i <= order.len(),
        forall|j: int|
            i <= j < order.len() ==> edges[(#[trigger] order[j]) as int].0.from_exclusive
                > edges[k as int].0.from_exclusive,
        i > 0 ==> edges[order[i - 1] as int].0.from_exclusive <= edges[k as int].0.from_exclusive,
    ensures
        insert_by_from(edges, order, k) == order.insert(i, k),
    decreases order.len() - i,
{
    if order.len() == 0 {
        assert(order.insert(0, k) =~= seq![k]);
    } else if i == order.len() {
        assert(order.insert(i, k) =~= order.push(k));
    } else {
        assert(edges[order[order.len() - 1] as int].0.from_exclusive
            > edges[k as int].0.from_exclusive);
        let front = order.drop_last();
        lemma_insert_by_from_at(edges, front, k, i);
        assert(front.insert(i, k).push(order.last()) =~= order.insert(i, k));
    }
}

/// Puts `x` into its place in the increasing list, unless it is there.
pub fn sorted_insert(points: &mut Vec<A>, x: A)
    requires
        increasing(old(points)@),
    ensures
        final(points)@ == insert_point(old(points)@, x),
{
    let mut i: usize = points.len();
    while i > 0 && points[i - 1] > x
        invariant
            i <= points@.len(),
            points@ == old(points)@,
            forall|j: int| i <= j < points@.len() ==> points@[j] > x,
        decreases i,
    {
        i = i - 1;
    }
    proof {
        lemma_insert_point_at(points@, x, i as int);
    }
    if i > 0 && points[i - 1] == x {
    } else {
        points.insert(i, x);
    }
}

/// The indices of the edges in the order in which their intervals begin.
pub fn order_by_from(edges: &Vec<(E, NodeId)>) -> (r: Vec<usize>)
    ensures
        r@ == activation_order(edges_view(edges@), edges@.len()),
        forall|p: int| 0 <= p < r@.len() ==> (#[trigger] r@[p]) < edges@.len(),
{
    let ghost ev = edges_view(edges@);
    let mut order: Vec<usize> = Vec::with_capacity(edges.len());
    let mut k: usize = 0;
    while k < edges.len()
        invariant
            k <= edges.len(),
            ev == edges_view(edges@),
            order@ == activation_order(ev, k as nat),
            forall|p: int| 0 <= p < order@.len() ==> (#[trigger] order@[p]) < k,
        decreases edges.len() - k,
    {
        let from = edges[k].0.from_exclusive();
        let mut i: usize = order.len();
        while i > 0 && edges[order[i - 1]].0.from_exclusive() > from
            invariant
                i <= order@.len(),
                k < edges.len(),
                ev == edges_view(edges@),
                from == ev[k as int].0.from_exclusive,
                forall|p: int| 0 <= p < order@.len() ==> (#[trigger] order@[p]) < k,
                forall|j: int|
                    i <= j < order@.len() ==> ev[(#[trigger] order@[j]) as int].0.from_exclusive
                        > from,
            decreases i,
        {
            i = i - 1;
        }
        proof {
            if i > 0 {
                assert(order@[i - 1] < k);
            }
            lemma_insert_by_from_at(ev, order@, k, i as int);
        }
        order.insert(i, k);
        k = k + 1;
    }
    order
}

/// The symbols at which the set of accepting edges can change; see
/// `breakpoints`.
pub fn collect_breakpoints(edges: &Vec<(E, NodeId)>) -> (r: Vec<A>)
    ensures
        r@ == breakpoints(edges_view(edges@), edges@.len()),
        increasing(r@),
        r@.len() > 0,
        r@.last() == A::MAX,
        r@[0] > REFLECT,
{
    let ghost ev = edges_view(edges@);
    let mut points: Vec<A> = Vec::new();
    points.push(A::MAX);
    let mut k: usize = 0;
    proof {
        assert(points@ =~= breakpoints(ev, 0));
    }
    while k < edges.len()
        invariant
            k <= edges.len(),
            ev == edges_view(edges@),
            points@ == breakpoints(ev, k as nat),
            forall|i: int|
                0 <= i < k ==> (#[trigger] ev[i]).0.from_exclusive < ev[i].0.to_inclusive,
        decreases edges.len() - k,
    {
        let from = edges[k].0.from_exclusive();
        let to = edges[k].0.to_inclusive();
        proof {
            lemma_breakpoints(ev.subrange(0, k as int), k as nat);
            lemma_breakpoints_prefix(ev, ev.subrange(0, k as int), k as nat);
        }
        if from > REFLECT {
            sorted_insert(&mut points, from);
        }
        proof {
            lemma_insert_point(breakpoints(ev, k as nat), from);
        }
        sorted_insert(&mut points, to);
        k = k + 1;
    }
    proof {
        assert(ev.subrange(0, k as int) =~= ev);
        lemma_breakpoints(ev, k as nat);
    }
    points
}

/// The breakpoints of the first `n` edges depend on these edges only.
pub proof fn lemma_breakpoints_prefix(
    edges: Seq<(EView, NodeId)>,
    other: Seq<(EView, NodeId)>,
    n: nat,
)
    requires
        n <= edges.len(),
        n <= other.len(),
        forall|i: int| 0 <= i < n ==> edges[i] == other[i],
    ensures
        breakpoints(edges, n) == breakpoints(other, n),
    decreases n,
{
    if n > 0 {
        lemma_breakpoints_prefix(edges, other, (n - 1) as nat);
    }
}

/// The transitions of the edges that accept `x`; see `active`.
pub fn active_transitions(
    edges: &Vec<(E, NodeId)>,
    index_of: &Vec<usize>,
    order: &Vec<usize>,
    x: A,
) -> (r: Vec<Transition>)
    requires
        forall|p: int| 0 <= p < order@.len() ==> (#[trigger] order@[p]) < edges@.len(),
        forall|i: int| 0 <= i < edges@.len() ==> (#[trigger] edges@[i]).1 < index_of@.len(),
        forall|i: int| 0 <= i < index_of@.len() ==> #[trigger] index_of@[i] != usize::MAX,
    ensures
        transitions_view(r@) == active(edges_view(edges@), index_of@, order@, x),
{
    let ghost ev = edges_view(edges@);
    let mut out: Vec<Transition> = Vec::new();
    let mut p: usize = 0;
    assert(order@.subrange(0, 0) =~= Seq::empty());
    assert(transitions_view(out@) =~= Seq::empty());
    while p < order.len()
        invariant
            p <= order.len(),
            ev == edges_view(edges@),
            forall|p: int| 0 <= p < order@.len() ==> (#[trigger] order@[p]) < edges@.len(),
            forall|i: int| 0 <= i < edges@.len() ==> (#[trigger] edges@[i]).1 < index_of@.len(),
            forall|i: int| 0 <= i < index_of@.len() ==> #[trigger] index_of@[i] != usize::MAX,
            transitions_view(out@) == active(ev, index_of@, order@.subrange(0, p as int), x),
        decreases order.len() - p,
    {
        let k = order[p];
        let e = &edges[k].0;
        let target = edges[k].1;
        proof {
            assert(order@.subrange(0, p + 1).drop_last() =~= order@.subrange(0, p as int));
            assert(ev[k as int] == (e@, target));
        }
        if e.from_exclusive() < x && x <= e.to_inclusive() {
            let state = nonsink_new(index_of[target]);
            let t = Transition::from(e.clone(), state);
            proof {
                assert(transitions_view(out@.push(t)) =~= transitions_view(out@).push(t@));
            }
            out.push(t);
        }
        p = p + 1;
    }
    assert(order@.subrange(0, p as int) =~= order@);
    out
}

/// The dispatch table of a state with the given edges; see `table`.
pub fn optimise(edges: &Vec<(E, NodeId)>, index_of: &Vec<usize>) -> (r: Transitions)
    requires
        forall|i: int| 0 <= i < edges@.len() ==> (#[trigger] edges@[i]).1 < index_of@.len(),
        forall|i: int| 0 <= i < index_of@.len() ==> #[trigger] index_of@[i] != usize::MAX,
    ensures
        r@ == table(edges_view(edges@), index_of@),
        full_sigma_covered(r@),
{
    let ghost ev = edges_view(edges@);
    let order = order_by_from(edges);
    let points = collect_breakpoints(edges);
    let mut transitions = Transitions::with_capacity(points.len());
    let mut i: usize = 0;
    while i < points.len()
        invariant
            i <= points.len(),
            ev == edges_view(edges@),
            order@ == activation_order(ev, edges@.len()),
            points@ == breakpoints(ev, edges@.len()),
            forall|p: int| 0 <= p < order@.len() ==> (#[trigger] order@[p]) < edges@.len(),
            forall|i: int| 0 <= i < edges@.len() ==> (#[trigger] edges@[i]).1 < index_of@.len(),
            forall|i: int| 0 <= i < index_of@.len() ==> #[trigger] index_of@[i] != usize::MAX,
            transitions@ == table(ev, index_of@).subrange(0, i as int),
        decreases points.len() - i,
    {
        let b = points[i];
        let active = active_transitions(edges, index_of, &order, b);
        transitions.push(Range::new(b, active));
        i = i + 1;
        assert(transitions@ =~= table(ev, index_of@).subrange(0, i as int));
    }
    assert(transitions@ =~= table(ev, index_of@));
    proof {
        let t = table(ev, index_of@);
        assert forall|a: int, b: int| 0 <= a < b < t.len() implies (#[trigger] t[a]).input < (
        #[trigger] t[b]).input by {
            assert(points@[a] < points@[b]);
        }
    }
    transitions
}


/// Which state each node is: a node found at position `i` is the state
/// `i + 1`, and the state 0 stands before the graph. A node that was not
/// found is no state, and has the entry 0.
pub open spec fn index_table(order: Seq<NodeId>, n: nat) -> Seq<usize> {
    Seq::new(
        n,
        |v: int|
            if order.contains(v as usize) {
                (order.index_of(v as usize) + 1) as usize
            } else {
                0usize
            },
    )
}

/// The partial edge under which the node accepts, if it does.
pub open spec fn final_of(finals: Seq<(NodeId, PView)>, node: NodeId) -> Option<PView>
    decreases finals.len(),
{
    if finals.len() == 0 {
        None
    } else if finals.last().0 == node {
        Some(finals.last().1)
    } else {
        final_of(finals.drop_last(), node)
    }
}

/// The ranged graph of an intermediate graph whose nodes were found in the
/// given order. State 0 is the initial state: it is left by the ways into the
/// graph and accepts under the epsilon. The state `i + 1` is the node
/// `order[i]`.
pub open spec fn ranged(g: GView, order: Seq<NodeId>) -> RGView {
    let idx = index_table(order, g.nodes.len());
    RGView {
        graph: Seq::new(
            order.len() + 1,
            |s: int|
                if s == 0 {
                    table(g.incoming, idx)
                } else {
                    table(g.nodes[order[s - 1] as int].outgoing, idx)
                },
        ),
        accepting: Seq::new(
            order.len() + 1,
            |s: int|
                if s == 0 {
                    g.epsilon
                } else {
                    final_of(g.outgoing, order[s - 1])
                },
        ),
        index_to_state: Seq::new(
            order.len() + 1,
            |s: int|
                if s == 0 {
                    V::UNKNOWN
                } else {
                    g.nodes[order[s - 1] as int].meta
                },
        ),
        initial: 0,
    }
}

/// Every active transition is the transition of one of the edges.
pub proof fn lemma_active_targets(
    edges: Seq<(EView, NodeId)>,
    index_of: Seq<usize>,
    order: Seq<usize>,
    x: A,
    bound: nat,
)
    requires
        forall|p: int| 0 <= p < order.len() ==> (#[trigger] order[p]) < edges.len(),
        forall|k: int|
            0 <= k < edges.len() ==> (#[trigger] edges[k]).1 < index_of.len()
                && index_of[edges[k].1 as int] < bound,
    ensures
        forall|j: int|
            0 <= j < active(edges, index_of, order, x).len() ==> (#[trigger] active(
                edges,
                index_of,
                order,
                x,
            )[j]).target.is_some() && active(edges, index_of, order, x)[j].target.unwrap() < bound,
    decreases order.len(),
{
    if order.len() > 0 {
        lemma_active_targets(edges, index_of, order.drop_last(), x, bound);
        let k = order.last();
        assert(edges[k as int].1 < index_of.len());
    }
}

/// The activation order holds indices of edges only.
pub proof fn lemma_activation_order_bound(edges: Seq<(EView, NodeId)>, n: nat)
    ensures
        forall|p: int|
            0 <= p < activation_order(edges, n).len() ==> (#[trigger] activation_order(
                edges,
                n,
            )[p]) < n,
    decreases n,
{
    if n > 0 {
        lemma_activation_order_bound(edges, (n - 1) as nat);
        lemma_insert_by_from_bound(edges, activation_order(edges, (n - 1) as nat), (n - 1) as usize, n);
    }
}

/// Putting an index into the order adds nothing but the index.
pub proof fn lemma_insert_by_from_bound(
    edges: Seq<(EView, NodeId)>,
    order: Seq<usize>,
    k: usize,
    n: nat,
)
    requires
        k < n,
        forall|p: int| 0 <= p < order.len() ==> (#[trigger] order[p]) < n,
    ensures
        forall|p: int|
            0 <= p < insert_by_from(edges, order, k).len() ==> (#[trigger] insert_by_from(
                edges,
                order,
                k,
            )[p]) < n,
    decreases order.len(),
{
    let r = insert_by_from(edges, order, k);
    if order.len() > 0 {
        if edges[order.last() as int].0.from_exclusive <= edges[k as int].0.from_exclusive {
            assert forall|p: int| 0 <= p < r.len() implies (#[trigger] r[p]) < n by {
                if p < order.len() {
                    assert(r[p] == order[p]);
                }
            }
        } else {
            let front = order.drop_last();
            assert forall|p: int| 0 <= p < front.len() implies (#[trigger] front[p]) < n by {
                assert(front[p] == order[p]);
            }
            lemma_insert_by_from_bound(edges, front, k, n);
            let inner = insert_by_from(edges, front, k);
            assert forall|p: int| 0 <= p < r.len() implies (#[trigger] r[p]) < n by {
                if p < inner.len() {
                    assert(r[p] == inner[p]);
                } else {
                    assert(r[p] == order[order.len() - 1]);
                }
            }
        }
    }
}

/// A table whose edges lead to nodes that are states below `bound` leads to
/// states below `bound`.
pub proof fn lemma_table_targets(edges: Seq<(EView, NodeId)>, index_of: Seq<usize>, bound: nat)
    requires
        forall|k: int|
            0 <= k < edges.len() ==> (#[trigger] edges[k]).1 < index_of.len()
                && index_of[edges[k].1 as int] < bound,
    ensures
        crate::ranged_graph::targets_within(table(edges, index_of), bound),
{
    let t = table(edges, index_of);
    let order = activation_order(edges, edges.len());
    lemma_activation_order_bound(edges, edges.len());
    assert forall|i: int, j: int| 0 <= i < t.len() && 0 <= j < t[i].edges.len() implies (
    #[trigger] t[i].edges[j]).target.is_none() || t[i].edges[j].target.unwrap() < bound by {
        lemma_active_targets(edges, index_of, order, breakpoints(edges, edges.len())[i], bound);
    }
}

/// Looks up under which partial edge each node accepts: the entry of a node is
/// 0 if it does not, and otherwise one more than its place in the list.
pub fn index_finals(finals: &Vec<(NodeId, P)>, n: usize) -> (r: Vec<usize>)
    requires
        forall|i: int| 0 <= i < finals@.len() ==> (#[trigger] finals@[i]).0 < n,
    ensures
        r@.len() == n,
        forall|v: int|
            0 <= v < n ==> (#[trigger] r@[v]) <= finals@.len() && (r@[v] == 0 ==> final_of(
                finals_view(finals@),
                v as usize,
            ).is_none()) && (r@[v] > 0 ==> final_of(finals_view(finals@), v as usize) == Some(
                finals@[r@[v] - 1].1@,
            )),
{
    let ghost fs = finals_view(finals@);
    let mut at: Vec<usize> = Vec::with_capacity(n);
    let mut v: usize = 0;
    while v < n
        invariant
            v <= n,
            at@.len() == v,
            forall|x: int| 0 <= x < v ==> #[trigger] at@[x] == 0,
        decreases n - v,
    {
        at.push(0);
        v = v + 1;
    }
    let mut i: usize = 0;
    assert(fs.subrange(0, 0) =~= Seq::empty());
    while i < finals.len()
        invariant
            i <= finals.len(),
            at@.len() == n,
            fs == finals_view(finals@),
            forall|i: int| 0 <= i < finals@.len() ==> (#[trigger] finals@[i]).0 < n,
            forall|v: int|
                0 <= v < n ==> (#[trigger] at@[v]) <= i && (at@[v] == 0 ==> final_of(
                    fs.subrange(0, i as int),
                    v as usize,
                ).is_none()) && (at@[v] > 0 ==> final_of(fs.subrange(0, i as int), v as usize)
                    == Some(finals@[at@[v] - 1].1@)),
        decreases finals.len() - i,
    {
        let node = finals[i].0;
        proof {
            assert(fs.subrange(0, i + 1).drop_last() =~= fs.subrange(0, i as int));
            assert(fs.subrange(0, i + 1).last() == fs[i as int]);
        }
        at[node] = i + 1;
        i = i + 1;
    }
    assert(fs.subrange(0, i as int) =~= fs);
    at
}

/// Numbers the nodes in the order in which they were found; see `index_table`.
pub fn index_nodes(order: &Vec<NodeId>, n: usize) -> (r: Vec<usize>)
    requires
        n < usize::MAX,
        order@.len() <= n,
        order@.no_duplicates(),
        forall|i: int| 0 <= i < order@.len() ==> (#[trigger] order@[i]) < n,
    ensures
        r@ == index_table(order@, n as nat),
        forall|v: int| 0 <= v < n ==> (#[trigger] r@[v]) <= order@.len(),
        forall|i: int| 0 <= i < order@.len() ==> r@[(#[trigger] order@[i]) as int] == i + 1,
{
    let mut index_of: Vec<usize> = Vec::with_capacity(n);
    let mut v: usize = 0;
    while v < n
        invariant
            v <= n,
            index_of@.len() == v,
            forall|x: int| 0 <= x < v ==> #[trigger] index_of@[x] == 0,
        decreases n - v,
    {
        index_of.push(0);
        v = v + 1;
    }
    let mut i: usize = 0;
    while i < order.len()
        invariant
            i <= order.len(),
            n < usize::MAX,
            order@.len() <= n,
            order@.no_duplicates(),
            index_of@.len() == n,
            forall|i: int| 0 <= i < order@.len() ==> (#[trigger] order@[i]) < n,
            forall|x: int| 0 <= x < i ==> index_of@[(#[trigger] order@[x]) as int] == x + 1,
            forall|v: int|
                0 <= v < n ==> (#[trigger] index_of@[v]) <= i && (index_of@[v] == 0 ==> forall|
                    x: int,
                |
                    0 <= x < i ==> #[trigger] order@[x] != v) && (index_of@[v] != 0
                    ==> order@[index_of@[v] - 1] == v),
        decreases order.len() - i,
    {
        let node = order[i];
        index_of[node] = i + 1;
        i = i + 1;
    }
    proof {
        let t = index_table(order@, n as nat);
        assert forall|v: int| 0 <= v < n implies index_of@[v] == t[v] by {
            if order@.contains(v as usize) {
                let x = order@.index_of(v as usize);
                assert(order@[x] == v as usize);
                assert(index_of@[order@[x] as int] == x + 1);
            } else {
                if index_of@[v] != 0 {
                    assert(order@[index_of@[v] - 1] == v as usize);
                }
            }
        }
        assert(index_of@ =~= t);
    }
    index_of
}


/// Whether every node of `order` is a node of the graph, and every edge that
/// leaves the initial state or one of these nodes leads to a node that is a
/// state below `count`.
pub open spec fn states_closed(g: GView, order: Seq<NodeId>, index_of: Seq<usize>, count: nat) -> bool {
    &&& index_of.len() == g.nodes.len()
    &&& forall|x: int| 0 <= x < order.len() ==> (#[trigger] order[x]) < g.nodes.len()
    &&& forall|v: int| 0 <= v < index_of.len() ==> #[trigger] index_of[v] != usize::MAX
    &&& forall|k: int|
        0 <= k < g.incoming.len() ==> (#[trigger] g.incoming[k]).1 < index_of.len()
            && index_of[g.incoming[k].1 as int] < count
    &&& forall|x: int, k: int|
        0 <= x < order.len() && 0 <= k < g.nodes[order[x] as int].outgoing.len() ==> (
        #[trigger] g.nodes[order[x] as int].outgoing[k]).1 < index_of.len()
            && index_of[g.nodes[order[x] as int].outgoing[k].1 as int] < count
}

/// A closed set of nodes that holds every way into the graph, numbered in the
/// order in which the nodes were found, makes a closed set of states.
pub proof fn lemma_states_closed(g: GView, set: NodeSetView, index_of: Seq<usize>)
    requires
        g.wf(),
        g.nodes.len() < usize::MAX,
        set.wf(g.nodes.len()),
        set.closed(g.nodes),
        forall|i: int| 0 <= i < g.incoming.len() ==> set.seen[(#[trigger] g.incoming[i]).1 as int],
        index_of.len() == g.nodes.len(),
        forall|v: int| 0 <= v < g.nodes.len() ==> (#[trigger] index_of[v]) <= set.order.len(),
        forall|i: int| 0 <= i < set.order.len() ==> index_of[(#[trigger] set.order[i]) as int] == i + 1,
    ensures
        states_closed(g, set.order, index_of, set.order.len() + 1),
{
    let order = set.order;
    let count = order.len() + 1;
    assert forall|k: int| 0 <= k < g.incoming.len() implies (#[trigger] g.incoming[k]).1
        < index_of.len() && index_of[g.incoming[k].1 as int] < count by {
        assert(g.incoming[k].1 < g.nodes.len());
    }
    assert forall|x: int, k: int|
        0 <= x < order.len() && 0 <= k < g.nodes[order[x] as int].outgoing.len() implies (
    #[trigger] g.nodes[order[x] as int].outgoing[k]).1 < index_of.len()
        && index_of[g.nodes[order[x] as int].outgoing[k].1 as int] < count by {
        let v = order[x];
        assert(v < g.nodes.len());
        assert(edges_within(g.nodes[v as int].outgoing, g.nodes.len()));
        assert(g.nodes[v as int].outgoing[k].1 < g.nodes.len());
    }
}

/// The ranged graph of a graph with a closed set of states is well formed.
pub proof fn lemma_ranged_wf(g: GView, order: Seq<NodeId>)
    requires
        g.wf(),
        states_closed(g, order, index_table(order, g.nodes.len()), order.len() + 1),
    ensures
        ranged(g, order).wf(),
{
    let r = ranged(g, order);
    let idx = index_table(order, g.nodes.len());
    let count = order.len() + 1;
    assert forall|s: int| 0 <= s < r.graph.len() implies full_sigma_covered(#[trigger] r.graph[s])
        && crate::ranged_graph::targets_within(r.graph[s], r.graph.len()) by {
        let edges = if s == 0 {
            g.incoming
        } else {
            g.nodes[order[s - 1] as int].outgoing
        };
        assert(r.graph[s] == table(edges, idx));
        assert forall|k: int| 0 <= k < edges.len() implies (#[trigger] edges[k]).1 < idx.len()
            && idx[edges[k].1 as int] < count && edges[k].0.from_exclusive
            < edges[k].0.to_inclusive by {
            if s == 0 {
                assert(g.incoming[k].1 < idx.len());
            } else {
                assert(order[s - 1] < g.nodes.len());
                assert(edges_within(g.nodes[order[s - 1] as int].outgoing, g.nodes.len()));
                assert(g.nodes[order[s - 1] as int].outgoing[k].1 < idx.len());
            }
        }
        lemma_table_targets(edges, idx, count as nat);
        lemma_table_covered(edges, idx);
    }
}

/// The table of a list of edges with non-empty intervals covers every symbol.
pub proof fn lemma_table_covered(edges: Seq<(EView, NodeId)>, index_of: Seq<usize>)
    requires
        forall|i: int|
            0 <= i < edges.len() ==> (#[trigger] edges[i]).0.from_exclusive < edges[i].0.to_inclusive,
    ensures
        full_sigma_covered(table(edges, index_of)),
{
    lemma_breakpoints(edges, edges.len());
    let points = breakpoints(edges, edges.len());
    let t = table(edges, index_of);
    assert forall|a: int, b: int| 0 <= a < b < t.len() implies (#[trigger] t[a]).input < (
    #[trigger] t[b]).input by {
        assert(points[a] < points[b]);
    }
    assert(t[0].input == points[0]);
    assert(t[t.len() - 1].input == points.last());
}

/// Whether `rg` is the ranged graph of the graph `g` for some order of the
/// nodes of `g` that can be reached from a way into it; see `ranged`.
pub open spec fn is_ranged_of(g: GView, rg: RGView) -> bool {
    exists|order: Seq<NodeId>|
        {
            &&& #[trigger] ranged(g, order) == rg
            &&& order.no_duplicates()
            &&& forall|k: NodeId|
                order.contains(k) <==> k < g.nodes.len() && exists|i: int|
                    0 <= i < g.incoming.len() && #[trigger] reachable(g.nodes, g.incoming[i].1, k)
        }
}

impl G {
    /// The tables of the ranged graph of this graph for the given numbering of
    /// its nodes; see `ranged`.
    pub fn optimise_states(
        &self,
        order: &Vec<NodeId>,
        index_of: &Vec<usize>,
        final_at: &Vec<usize>,
    ) -> (r: (Vec<Transitions>, Vec<Option<P>>, Vec<V>))
        requires
            self@.wf(),
            order@.len() < usize::MAX,
            index_of@ == index_table(order@, self@.nodes.len()),
            states_closed(self@, order@, index_of@, order@.len() + 1),
            final_at@.len() == self@.nodes.len(),
            forall|v: int|
                0 <= v < self@.nodes.len() ==> (#[trigger] final_at@[v]) <= self.outgoing@.len() && (
                final_at@[v] == 0 ==> final_of(self@.outgoing, v as usize).is_none()) && (
                final_at@[v] > 0 ==> final_of(self@.outgoing, v as usize) == Some(
                    self.outgoing@[final_at@[v] - 1].1@,
                )),
        ensures
            r.0@.map_values(|t: Transitions| t@) == ranged(self@, order@).graph,
            crate::ranged_graph::accepting_view(r.1@) == ranged(self@, order@).accepting,
            r.2@ == ranged(self@, order@).index_to_state,
    {
        let ghost g = self@;
        let ghost target = ranged(g, order@);
        let count = order.len() + 1;
        let mut graph: Vec<Transitions> = Vec::with_capacity(count);
        let mut accepting: Vec<Option<P>> = Vec::with_capacity(count);
        let mut index_to_state: Vec<V> = Vec::with_capacity(count);
        proof {
            assert forall|i: int| 0 <= i < self.incoming@.len() implies (
            #[trigger] self.incoming@[i]).1 < index_of@.len() by {
                assert(g.incoming[i].1 < index_of@.len());
            }
        }
        graph.push(optimise(&self.incoming, index_of));
        accepting.push(crate::g::clone_epsilon(&self.epsilon));
        index_to_state.push(V::UNKNOWN);
        let mut s: usize = 1;
        while s < count
            invariant
                1 <= s <= count,
                count == order@.len() + 1,
                g == self@,
                g.wf(),
                target == ranged(g, order@),
                index_of@ == index_table(order@, g.nodes.len()),
                states_closed(g, order@, index_of@, order@.len() + 1),
                final_at@.len() == g.nodes.len(),
                graph@.len() == s,
                accepting@.len() == s,
                index_to_state@.len() == s,
                forall|v: int|
                    0 <= v < g.nodes.len() ==> (#[trigger] final_at@[v]) <= self.outgoing@.len() && (
                    final_at@[v] == 0 ==> final_of(g.outgoing, v as usize).is_none()) && (
                    final_at@[v] > 0 ==> final_of(g.outgoing, v as usize) == Some(
                        self.outgoing@[final_at@[v] - 1].1@,
                    )),
                forall|x: int| 0 <= x < s ==> (#[trigger] graph@[x])@ == target.graph[x],
                forall|x: int|
                    0 <= x < s ==> epsilon_view(#[trigger] accepting@[x]) == target.accepting[x],
                forall|x: int| 0 <= x < s ==> #[trigger] index_to_state@[x] == target.index_to_state[x],
            decreases count - s,
        {
            let node = order[s - 1];
            assert(order@[s - 1] < g.nodes.len());
            let edges = N::outgoing(node, &self.pool);
            proof {
                assert forall|k: int| 0 <= k < edges@.len() implies (#[trigger] edges@[k]).1
                    < index_of@.len() by {
                    assert(g.nodes[order@[s - 1] as int].outgoing[k].1 < index_of@.len());
                }
            }
            let transitions = optimise(edges, index_of);
            let at = final_at[node];
            let acc = if at == 0 {
                None
            } else {
                Some(self.outgoing[at - 1].1.clone())
            };
            graph.push(transitions);
            accepting.push(acc);
            index_to_state.push(*N::meta(node, &self.pool));
            s = s + 1;
        }
        proof {
            assert(graph@.map_values(|t: Transitions| t@) =~= target.graph);
            assert(crate::ranged_graph::accepting_view(accepting@) =~= target.accepting);
            assert(index_to_state@ =~= target.index_to_state);
        }
        (graph, accepting, index_to_state)
    }

    /// The ranged graph of this graph, with the nodes that became its states:
    /// the state `i + 1` is the node at place `i`. The nodes are those that can
    /// be reached from a way into the graph, each once.
    pub fn optimise_and_collect_graph(&self) -> (r: (RangedGraph, Vec<NodeId>))
        requires
            self@.wf(),
            self@.nodes.len() < usize::MAX,
        ensures
            r.0@ == ranged(self@, r.1@),
            r.1@.no_duplicates(),
            forall|k: NodeId|
                r.1@.contains(k) ==> k < self@.nodes.len() && exists|i: int|
                    0 <= i < self@.incoming.len() && reachable(
                        self@.nodes,
                        (#[trigger] self@.incoming[i]).1,
                        k,
                    ),
            forall|i: int, k: NodeId|
                0 <= i < self@.incoming.len() && k < self@.nodes.len() && #[trigger] reachable(
                    self@.nodes,
                    self@.incoming[i].1,
                    k,
                ) ==> r.1@.contains(k),
    {
        let n = self.pool.len();
        let set = self.collect_graph();
        let ghost set_view = set@;
        let order = set.order;
        proof {
            crate::collect::lemma_order_no_duplicates(set_view, n as nat);
            assert forall|k: NodeId| order@.contains(k) implies k < self@.nodes.len() && exists|
                i: int,
            |
                0 <= i < self@.incoming.len() && reachable(
                    self@.nodes,
                    (#[trigger] self@.incoming[i]).1,
                    k,
                ) by {
                let i = choose|i: int| 0 <= i < order@.len() && order@[i] == k;
                assert(set_view.seen[set_view.order[i] as int]);
            }
            assert forall|i: int, k: NodeId|
                0 <= i < self@.incoming.len() && k < self@.nodes.len() && #[trigger] reachable(
                    self@.nodes,
                    self@.incoming[i].1,
                    k,
                ) implies order@.contains(k) by {
                crate::collect::lemma_closed_holds_reachable(
                    self@.nodes,
                    set_view,
                    self@.incoming[i].1,
                );
                assert(set_view.seen[k as int]);
            }
        }
        let index_of = index_nodes(&order, n);
        proof {
            assert forall|i: int| 0 <= i < self.outgoing@.len() implies (
            #[trigger] self.outgoing@[i]).0 < n by {
                assert(self@.outgoing[i].0 < n);
            }
            lemma_states_closed(self@, set_view, index_of@);
            lemma_ranged_wf(self@, order@);
        }
        let final_at = index_finals(&self.outgoing, n);
        let (graph, accepting, index_to_state) = self.optimise_states(&order, &index_of, &final_at);
        let initial = nonsink_new(0);
        (RangedGraph::new(graph, accepting, index_to_state, initial.unwrap()), order)
    }

    /// The ranged graph of this graph; see `ranged`.
    pub fn optimise_graph(&self) -> (r: RangedGraph)
        requires
            self@.wf(),
            self@.nodes.len() < usize::MAX,
        ensures
            is_ranged_of(self@, r@),
    {
        let (r, order) = self.optimise_and_collect_graph();
        proof {
            assert(ranged(self@, order@) == r@);
            assert forall|k: NodeId| order@.contains(k) implies k < self@.nodes.len() && exists|
                i: int,
            |
                0 <= i < self@.incoming.len() && #[trigger] reachable(
                    self@.nodes,
                    self@.incoming[i].1,
                    k,
                ) by {
                let i = choose|i: int|
                    0 <= i < self@.incoming.len() && reachable(
                        self@.nodes,
                        (#[trigger] self@.incoming[i]).1,
                        k,
                    );
                assert(reachable(self@.nodes, self@.incoming[i].1, k));
            }
        }
        r
    }
}

} // verus!
