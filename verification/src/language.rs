use crate::e::EView;
use crate::g::{edges_within, pool_closed, GView};
use crate::int_seq::{symbols_of, A};
use crate::n::{NView, NodeId};
use crate::p::{neutral_view, PView, W};
use crate::ranged_evaluation::{reflect, strip_reflect};
use crate::ranged_optimisation::covers;
use crate::regular_operations::{
    concat_graph, connect, epsilon_union_view, left_act_edges, lemma_concat_identity,
    lemma_connect_closed, lemma_epsilon_union_commutative, lemma_loop_wf, loop_graph,
    right_act_finals, shift_edges, shift_finals, shift_nodes, union_graph,
};
use vstd::prelude::*;

verus! {

/// A way through a graph: the edge by which the graph is entered, the edges
/// that are taken from node to node, each by its place among the edges of its
/// node, and the accepting state in which the way ends, by its place among
/// the accepting states.
pub struct Run {
    pub entry: int,
    pub steps: Seq<int>,
    pub exit: int,
}

/// Where the steps lead from the node `v` on the input `x`, with the output
/// and the weight along the way: each step takes an edge that accepts the
/// next symbol, the outputs are joined, with the symbol in the place of every
/// reflection marker, and the weights are added. There is no such way if a
/// step names no edge or an edge that does not accept the symbol, or if the
/// steps are not as many as the symbols.
pub open spec fn follow(nodes: Seq<NView>, v: NodeId, x: Seq<A>, steps: Seq<int>) -> Option<
    (NodeId, Seq<A>, W),
>
    decreases x.len(),
{
    if x.len() == 0 {
        if steps.len() == 0 {
            Some((v, Seq::empty(), 0))
        } else {
            None
        }
    } else if steps.len() == 0 || v >= nodes.len() || !(0 <= steps[0]
        < nodes[v as int].outgoing.len()) {
        None
    } else {
        let (e, t) = nodes[v as int].outgoing[steps[0]];
        if !covers(e, x[0]) {
            None
        } else {
            match follow(nodes, t, x.drop_first(), steps.drop_first()) {
                None => None,
                Some((u, y, w)) => Some(
                    (
                        u,
                        reflect(symbols_of(e.partial.output), x[0]) + y,
                        e.partial.weight.wrapping_add(w),
                    ),
                ),
            }
        }
    }
}

/// The output and the weight of a run on an input that is not empty, if the
/// run is one of the graph on this input.
pub open spec fn run_result(g: GView, x: Seq<A>, run: Run) -> Option<(Seq<A>, W)> {
    if x.len() == 0 || !(0 <= run.entry < g.incoming.len()) {
        None
    } else {
        let (e, t) = g.incoming[run.entry];
        if !covers(e, x[0]) {
            None
        } else {
            match follow(g.nodes, t, x.drop_first(), run.steps) {
                None => None,
                Some((u, y, w)) => if 0 <= run.exit < g.outgoing.len() && g.outgoing[run.exit].0
                    == u {
                    let p = g.outgoing[run.exit].1;
                    Some(
                        (
                            reflect(symbols_of(e.partial.output), x[0]) + y + strip_reflect(
                                symbols_of(p.output),
                            ),
                            e.partial.weight.wrapping_add(w).wrapping_add(p.weight),
                        ),
                    )
                } else {
                    None
                },
            }
        }
    }
}

/// Whether the graph accepts the input `x` with the output `y` and the weight
/// `w`: the empty input under its epsilon, any other along a run.
pub open spec fn accepts(g: GView, x: Seq<A>, y: Seq<A>, w: W) -> bool {
    if x.len() == 0 {
        g.epsilon.is_some() && y == strip_reflect(symbols_of(g.epsilon.unwrap().output)) && w
            == g.epsilon.unwrap().weight
    } else {
        exists|run: Run| #[trigger] run_result(g, x, run) == Some((y, w))
    }
}

/// What lies behind the nodes of a closed pool does not change the ways
/// through it.
pub proof fn lemma_follow_left(
    a: Seq<NView>,
    b: Seq<NView>,
    v: NodeId,
    x: Seq<A>,
    steps: Seq<int>,
)
    requires
        pool_closed(a),
        v < a.len(),
    ensures
        follow(a + b, v, x, steps) == follow(a, v, x, steps),
        follow(a, v, x, steps).is_some() ==> follow(a, v, x, steps).unwrap().0 < a.len(),
    decreases x.len(),
{
    if x.len() > 0 && steps.len() > 0 {
        assert((a + b)[v as int] == a[v as int]);
        if 0 <= steps[0] < a[v as int].outgoing.len() {
            let (e, t) = a[v as int].outgoing[steps[0]];
            assert(edges_within(a[v as int].outgoing, a.len()));
            assert(a[v as int].outgoing[steps[0]].1 < a.len());
            lemma_follow_left(a, b, t, x.drop_first(), steps.drop_first());
        }
    }
}

/// The ways through the nodes of a closed pool that were given new names
/// behind other nodes are the ways through the pool, under the new names.
pub proof fn lemma_follow_right(
    a: Seq<NView>,
    b: Seq<NView>,
    v: NodeId,
    x: Seq<A>,
    steps: Seq<int>,
)
    requires
        pool_closed(b),
        v < b.len(),
        a.len() + b.len() <= usize::MAX,
    ensures
        follow(a + shift_nodes(b, a.len()), (v + a.len()) as usize, x, steps) == match follow(
            b,
            v,
            x,
            steps,
        ) {
            Some((u, y, w)) => Some(((u + a.len()) as usize, y, w)),
            None => None,
        },
        follow(b, v, x, steps).is_some() ==> follow(b, v, x, steps).unwrap().0 < b.len(),
    decreases x.len(),
{
    let k = a.len();
    let all = a + shift_nodes(b, k);
    if x.len() > 0 && steps.len() > 0 {
        assert(all[v + k] == shift_nodes(b, k)[v as int]);
        assert(all[v + k].outgoing == shift_edges(b[v as int].outgoing, k));
        if 0 <= steps[0] < b[v as int].outgoing.len() {
            let (e, t) = b[v as int].outgoing[steps[0]];
            assert(edges_within(b[v as int].outgoing, b.len()));
            assert(b[v as int].outgoing[steps[0]].1 < b.len());
            assert(all[v + k].outgoing[steps[0]] == (e, (t + k) as usize));
            lemma_follow_right(a, b, t, x.drop_first(), steps.drop_first());
        }
    }
}

/// What a union accepts of inputs that are not empty is what either of the
/// two graphs accepts.
pub proof fn lemma_union_accepts(
    l: GView,
    r: GView,
    eps: Option<PView>,
    x: Seq<A>,
    y: Seq<A>,
    w: W,
)
    requires
        l.wf(),
        r.wf(),
        l.nodes.len() + r.nodes.len() <= usize::MAX,
        x.len() > 0,
    ensures
        accepts(union_graph(l, r, eps), x, y, w) <==> accepts(l, x, y, w) || accepts(r, x, y, w),
{
    let u = union_graph(l, r, eps);
    let k = l.nodes.len();
    let li = l.incoming.len() as int;
    let lo = l.outgoing.len() as int;
    if accepts(u, x, y, w) {
        let run = choose|run: Run| #[trigger] run_result(u, x, run) == Some((y, w));
        if run.entry < li {
            assert(u.incoming[run.entry] == l.incoming[run.entry]);
            let (e, t) = l.incoming[run.entry];
            assert(l.incoming[run.entry].1 < k);
            lemma_follow_left(l.nodes, shift_nodes(r.nodes, k), t, x.drop_first(), run.steps);
            let (v, y2, w2) = follow(l.nodes, t, x.drop_first(), run.steps).unwrap();
            if run.exit >= lo {
                assert(u.outgoing[run.exit] == shift_finals(r.outgoing, k)[run.exit - lo]);
            }
            assert(u.outgoing[run.exit] == l.outgoing[run.exit]);
            assert(run_result(l, x, run) == Some((y, w)));
        } else {
            let j = run.entry - li;
            assert(u.incoming[run.entry] == shift_edges(r.incoming, k)[j]);
            let (e, t) = r.incoming[j];
            assert(r.incoming[j].1 < r.nodes.len());
            lemma_follow_right(l.nodes, r.nodes, t, x.drop_first(), run.steps);
            let (v, y2, w2) = follow(r.nodes, t, x.drop_first(), run.steps).unwrap();
            if run.exit < lo {
                assert(u.outgoing[run.exit] == l.outgoing[run.exit]);
                assert(l.outgoing[run.exit].0 < k);
            }
            let f = run.exit - lo;
            assert(u.outgoing[run.exit] == shift_finals(r.outgoing, k)[f]);
            assert(r.outgoing[f].0 < r.nodes.len());
            let other = Run { entry: j, steps: run.steps, exit: f };
            assert(run_result(r, x, other) == Some((y, w)));
        }
    }
    if accepts(l, x, y, w) {
        let run = choose|run: Run| #[trigger] run_result(l, x, run) == Some((y, w));
        assert(u.incoming[run.entry] == l.incoming[run.entry]);
        let (e, t) = l.incoming[run.entry];
        assert(l.incoming[run.entry].1 < k);
        lemma_follow_left(l.nodes, shift_nodes(r.nodes, k), t, x.drop_first(), run.steps);
        assert(u.outgoing[run.exit] == l.outgoing[run.exit]);
        assert(run_result(u, x, run) == Some((y, w)));
    }
    if accepts(r, x, y, w) {
        let run = choose|run: Run| #[trigger] run_result(r, x, run) == Some((y, w));
        let (e, t) = r.incoming[run.entry];
        assert(r.incoming[run.entry].1 < r.nodes.len());
        assert(u.incoming[run.entry + li] == shift_edges(r.incoming, k)[run.entry]);
        lemma_follow_right(l.nodes, r.nodes, t, x.drop_first(), run.steps);
        assert(u.outgoing[run.exit + lo] == shift_finals(r.outgoing, k)[run.exit]);
        assert(r.outgoing[run.exit].0 < r.nodes.len());
        let other = Run { entry: run.entry + li, steps: run.steps, exit: run.exit + lo };
        assert(run_result(u, x, other) == Some((y, w)));
    }
}

/// Union is commutative in what it accepts: where two well-formed graphs
/// have a union, they have one in either order, and the two unions accept the
/// same inputs with the same outputs and weights.
pub proof fn lemma_union_commutative(l: GView, r: GView, x: Seq<A>, y: Seq<A>, w: W)
    requires
        l.wf(),
        r.wf(),
        l.nodes.len() + r.nodes.len() <= usize::MAX,
        epsilon_union_view(l.epsilon, r.epsilon).is_ok(),
    ensures
        epsilon_union_view(r.epsilon, l.epsilon).is_ok(),
        accepts(
            union_graph(l, r, epsilon_union_view(l.epsilon, r.epsilon)->Ok_0),
            x,
            y,
            w,
        ) <==> accepts(
            union_graph(r, l, epsilon_union_view(r.epsilon, l.epsilon)->Ok_0),
            x,
            y,
            w,
        ),
{
    lemma_epsilon_union_commutative(l.epsilon, r.epsilon);
    if x.len() > 0 {
        lemma_union_accepts(l, r, epsilon_union_view(l.epsilon, r.epsilon)->Ok_0, x, y, w);
        lemma_union_accepts(r, l, epsilon_union_view(r.epsilon, l.epsilon)->Ok_0, x, y, w);
    }
}


/// Concatenation with the graph of the neutral epsilon, on either side, does
/// not change what a well-formed graph accepts.
pub proof fn lemma_concat_identity_accepts(g: GView, x: Seq<A>, y: Seq<A>, w: W)
    requires
        g.wf(),
    ensures
        accepts(concat_graph(g, crate::g::epsilon_graph(neutral_view())), x, y, w) <==> accepts(
            g,
            x,
            y,
            w,
        ),
        accepts(concat_graph(crate::g::epsilon_graph(neutral_view()), g), x, y, w) <==> accepts(
            g,
            x,
            y,
            w,
        ),
{
    lemma_concat_identity(g);
}

/// The Kleene star of a graph: every accepting state is connected back to
/// every way in, and the empty input is accepted under the neutral epsilon.
pub open spec fn star_graph(g: GView) -> GView {
    GView { epsilon: Some(neutral_view()), ..loop_graph(g) }
}

/// The Kleene star of a graph accepts the empty input, with no output and the
/// weight 0.
pub proof fn lemma_star_accepts_empty(g: GView)
    ensures
        accepts(star_graph(g), Seq::empty(), Seq::empty(), 0),
{
    assert(symbols_of(Seq::<char>::empty()) =~= Seq::<A>::empty());
    assert(strip_reflect(Seq::<A>::empty()) =~= Seq::<A>::empty());
}

/// The name of a node of the second copy of a graph in the first.
pub open spec fn folded(t: NodeId, k: nat) -> NodeId {
    if t >= k {
        (t - k) as usize
    } else {
        t
    }
}

/// The edges with every target that lies in the second copy of a graph led to
/// the same node of the first.
pub open spec fn folded_edges(edges: Seq<(EView, NodeId)>, k: nat) -> Seq<(EView, NodeId)> {
    edges.map_values(|x: (EView, NodeId)| (x.0, folded(x.1, k)))
}

/// Connecting the accepting states of a graph to the ways into a second copy
/// of it gives the edges that connecting them to its own ways in gives, but
/// for the copy to which they lead.
pub proof fn lemma_connect_folded(
    nodes: Seq<NView>,
    finals: Seq<(NodeId, PView)>,
    incoming: Seq<(EView, NodeId)>,
    v: int,
)
    requires
        pool_closed(nodes),
        forall|i: int| 0 <= i < finals.len() ==> (#[trigger] finals[i]).0 < nodes.len(),
        edges_within(incoming, nodes.len()),
        2 * nodes.len() <= usize::MAX,
        0 <= v < nodes.len(),
    ensures
        connect(nodes, finals, shift_edges(incoming, nodes.len())).len() == nodes.len(),
        connect(nodes, finals, incoming).len() == nodes.len(),
        folded_edges(
            connect(nodes, finals, shift_edges(incoming, nodes.len()))[v].outgoing,
            nodes.len(),
        ) == connect(nodes, finals, incoming)[v].outgoing,
        edges_within(
            connect(nodes, finals, shift_edges(incoming, nodes.len()))[v].outgoing,
            2 * nodes.len(),
        ),
    decreases finals.len(),
{
    let k = nodes.len();
    let far = shift_edges(incoming, k);
    if finals.len() == 0 {
        assert(edges_within(nodes[v].outgoing, k));
        assert(folded_edges(nodes[v].outgoing, k) =~= nodes[v].outgoing);
    } else {
        let front = finals.drop_last();
        let f = finals.last().0 as int;
        assert(finals[finals.len() - 1].0 < k);
        lemma_connect_folded(nodes, front, incoming, v);
        lemma_connect_folded(nodes, front, incoming, f);
        let c0 = connect(nodes, front, far);
        let s0 = connect(nodes, front, incoming);
        if v == f {
            let added_far = left_act_edges(finals.last().1, far);
            let added = left_act_edges(finals.last().1, incoming);
            assert forall|i: int| 0 <= i < incoming.len() implies folded(
                (#[trigger] added_far[i]).1,
                k,
            ) == added[i].1 && added_far[i].0 == added[i].0 && added_far[i].1 < 2 * k
                && added_far[i].0.from_exclusive < added_far[i].0.to_inclusive by {
                assert(incoming[i].1 < k);
            }
            let joined = c0[v].outgoing + added_far;
            assert(folded_edges(joined, k) =~= s0[v].outgoing + added) by {
                assert forall|i: int| 0 <= i < joined.len() implies folded_edges(joined, k)[i] == (
                s0[v].outgoing + added)[i] by {
                    if i < c0[v].outgoing.len() {
                        assert(folded_edges(c0[v].outgoing, k)[i] == s0[v].outgoing[i]);
                    } else {
                        let j = i - c0[v].outgoing.len();
                        assert(joined[i] == added_far[j]);
                        assert(folded_edges(c0[v].outgoing, k).len() == s0[v].outgoing.len());
                    }
                }
                assert(folded_edges(c0[v].outgoing, k).len() == s0[v].outgoing.len());
            }
            assert forall|i: int| 0 <= i < joined.len() implies (#[trigger] joined[i]).1 < 2 * k
                && joined[i].0.from_exclusive < joined[i].0.to_inclusive by {
                if i < c0[v].outgoing.len() {
                    assert(joined[i] == c0[v].outgoing[i]);
                } else {
                    assert(joined[i] == added_far[i - c0[v].outgoing.len()]);
                }
            }
        }
    }
}

/// A way through the nodes of a graph that is followed by a second copy of
/// its star is a way through the star, when the nodes of the copy are taken
/// for the nodes of which they are copies.
pub proof fn lemma_follow_folded(
    both: Seq<NView>,
    star: Seq<NView>,
    v: NodeId,
    x: Seq<A>,
    steps: Seq<int>,
)
    requires
        both.len() == 2 * star.len(),
        2 * star.len() <= usize::MAX,
        v < both.len(),
        forall|u: int|
            0 <= u < both.len() ==> folded_edges((#[trigger] both[u]).outgoing, star.len())
                == star[folded(u as usize, star.len()) as int].outgoing && edges_within(
                both[u].outgoing,
                both.len(),
            ),
        follow(both, v, x, steps).is_some(),
    ensures
        follow(star, folded(v, star.len()), x, steps) == Some(
            (
                folded(follow(both, v, x, steps).unwrap().0, star.len()),
                follow(both, v, x, steps).unwrap().1,
                follow(both, v, x, steps).unwrap().2,
            ),
        ),
        follow(both, v, x, steps).unwrap().0 < both.len(),
    decreases x.len(),
{
    let k = star.len();
    if x.len() > 0 {
        let (e, t) = both[v as int].outgoing[steps[0]];
        let mapped = folded_edges(both[v as int].outgoing, k);
        assert(mapped == star[folded(v, k) as int].outgoing);
        assert(mapped[steps[0]] == (e, folded(t, k)));
        assert(edges_within(both[v as int].outgoing, both.len()));
        assert(both[v as int].outgoing[steps[0]].1 < both.len());
        lemma_follow_folded(both, star, t, x.drop_first(), steps.drop_first());
    }
}

/// The Kleene star of a graph accepts whatever the graph followed by its star
/// accepts. This holds of well-formed graphs that do not accept the empty
/// input: the star of a graph gives up the epsilon of the graph.
pub proof fn lemma_star_accepts_concat(g: GView, x: Seq<A>, y: Seq<A>, w: W)
    requires
        g.wf(),
        g.epsilon.is_none(),
        2 * g.nodes.len() <= usize::MAX,
        accepts(concat_graph(g, star_graph(g)), x, y, w),
    ensures
        accepts(star_graph(g), x, y, w),
{
    let s = star_graph(g);
    let c = concat_graph(g, s);
    let k = g.nodes.len();
    lemma_loop_wf(g);
    assert(s.wf());
    if g.is_empty() {
        // an empty graph accepts nothing
        assert(c == g);
        if x.len() > 0 {
            let run = choose|run: Run| #[trigger] run_result(g, x, run) == Some((y, w));
            let (e, t) = g.incoming[run.entry];
            assert(g.outgoing.len() == 0);
        }
    } else {
        assert(x.len() > 0);
        let run = choose|run: Run| #[trigger] run_result(c, x, run) == Some((y, w));
        let entries = shift_edges(s.incoming, k);
        lemma_connect_closed(g.nodes, g.outgoing, g.incoming, k);
        assert(s.nodes.len() == k);
        assert forall|i: int| 0 <= i < entries.len() implies (#[trigger] entries[i]).1 < 2 * k
            && entries[i].0.from_exclusive < entries[i].0.to_inclusive by {
            assert(g.incoming[i].1 < k);
        }
        assert forall|u: int| 0 <= u < g.nodes.len() implies edges_within(
            (#[trigger] g.nodes[u]).outgoing,
            2 * k,
        ) by {
            assert(edges_within(g.nodes[u].outgoing, k));
        }
        lemma_connect_closed(g.nodes, g.outgoing, entries, 2 * k);
        let first = connect(g.nodes, g.outgoing, entries);
        assert(first.len() == k);
        assert(c.nodes.len() == 2 * k);
        assert forall|u: int| 0 <= u < c.nodes.len() implies folded_edges(
            (#[trigger] c.nodes[u]).outgoing,
            k,
        ) == s.nodes[folded(u as usize, k) as int].outgoing && edges_within(
            c.nodes[u].outgoing,
            c.nodes.len(),
        ) by {
            if u < k {
                assert(c.nodes[u] == first[u]);
                lemma_connect_folded(g.nodes, g.outgoing, g.incoming, u);
            } else {
                let v = u - k;
                assert(c.nodes[u] == shift_nodes(s.nodes, k)[v]);
                assert(edges_within(s.nodes[v].outgoing, k));
                let far = shift_edges(s.nodes[v].outgoing, k);
                assert(folded_edges(far, k) =~= s.nodes[v].outgoing) by {
                    assert forall|i: int| 0 <= i < far.len() implies folded_edges(far, k)[i]
                        == s.nodes[v].outgoing[i] by {
                        assert(s.nodes[v].outgoing[i].1 < k);
                    }
                }
                assert forall|i: int| 0 <= i < far.len() implies (#[trigger] far[i]).1 < 2 * k
                    && far[i].0.from_exclusive < far[i].0.to_inclusive by {
                    assert(s.nodes[v].outgoing[i].1 < k);
                }
            }
        }
        assert(c.incoming == g.incoming);
        let (e, t) = g.incoming[run.entry];
        assert(g.incoming[run.entry].1 < k);
        lemma_follow_folded(c.nodes, s.nodes, t, x.drop_first(), run.steps);
        let (u, y2, w2) = follow(c.nodes, t, x.drop_first(), run.steps).unwrap();
        let lo = g.outgoing.len() as int;
        let high = shift_finals(g.outgoing, k);
        let low = right_act_finals(g.outgoing, neutral_view());
        assert(c.outgoing == high + low);
        let f = if run.exit < lo {
            run.exit
        } else {
            run.exit - lo
        };
        assert(s.outgoing[f].0 == folded(u, k) && s.outgoing[f].1 == c.outgoing[run.exit].1) by {
            assert(g.outgoing[f].0 < k);
            if run.exit < lo {
                assert(c.outgoing[run.exit] == high[run.exit]);
            } else {
                assert(c.outgoing[run.exit] == low[f]);
                crate::p::lemma_multiply_neutral(g.outgoing[f].1);
            }
        }
        let other = Run { entry: run.entry, steps: run.steps, exit: f };
        assert(folded(t, k) == t);
        assert(run_result(s, x, other) == Some((y, w)));
    }
}

} // verus!
