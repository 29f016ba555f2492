use crate::collect::{has_edge, lemma_reachable_self, lemma_reachable_step, reachable};
use crate::e::EView;
use crate::g::{GView, G};
use crate::int_seq::{symbols_of, A, REFLECT};
use crate::language::{accepts, follow, run_result, Run};
use crate::learn::soundness::{
    lemma_activation_order_perm, lemma_table_lookup, reached_order,
};
use crate::n::{NView, NodeId};
use crate::p::{lemma_wrapping_add_associative, PView, W};
use crate::ranged_evaluation::{
    best_final, column, evaluate, lookup, next_column_upto, path_output, reflect, step, step_all,
    strip_reflect, NodeView,
};
use crate::ranged_graph::{RGView, TransitionView};
use crate::ranged_optimisation::{
    activation_order, active, covers, final_of, index_table, is_ranged_of,
    lemma_activation_order_bound, ranged, table, transition_of,
};
use vstd::prelude::*;

verus! {

/// A way that goes on by one more edge ends where that edge leads, with the
/// output and the weight of the edge behind its own.
pub proof fn lemma_follow_push(
    nodes: Seq<NView>,
    v: NodeId,
    x: Seq<A>,
    steps: Seq<int>,
    c: A,
    j: int,
)
    requires
        steps.len() == x.len(),
    ensures
        follow(nodes, v, x.push(c), steps.push(j)) == match follow(nodes, v, x, steps) {
            None => None,
            Some((u, y, w)) => if u < nodes.len() && 0 <= j < nodes[u as int].outgoing.len()
                && covers(nodes[u as int].outgoing[j].0, c) {
                Some(
                    (
                        nodes[u as int].outgoing[j].1,
                        y + reflect(symbols_of(nodes[u as int].outgoing[j].0.partial.output), c),
                        w.wrapping_add(nodes[u as int].outgoing[j].0.partial.weight),
                    ),
                )
            } else {
                None
            },
        },
    decreases x.len(),
{
    let longer = x.push(c);
    let more = steps.push(j);
    if x.len() == 0 {
        assert(longer.drop_first() =~= Seq::<A>::empty());
        assert(more.drop_first() =~= Seq::<int>::empty());
        assert(longer[0] == c && more[0] == j);
        if v < nodes.len() && 0 <= j < nodes[v as int].outgoing.len() && covers(
            nodes[v as int].outgoing[j].0,
            c,
        ) {
            let (e, t) = nodes[v as int].outgoing[j];
            let out = reflect(symbols_of(e.partial.output), c);
            assert(follow(nodes, t, Seq::<A>::empty(), Seq::<int>::empty()) == Some(
                (t, Seq::<A>::empty(), 0i32),
            ));
            assert(out + Seq::<A>::empty() =~= Seq::<A>::empty() + out);
        }
    } else {
        assert(longer.drop_first() =~= x.drop_first().push(c));
        assert(more.drop_first() =~= steps.drop_first().push(j));
        assert(longer[0] == x[0] && more[0] == steps[0]);
        if v < nodes.len() && 0 <= steps[0] < nodes[v as int].outgoing.len() {
            let (e, t) = nodes[v as int].outgoing[steps[0]];
            if covers(e, x[0]) {
                lemma_follow_push(nodes, t, x.drop_first(), steps.drop_first(), c, j);
                match follow(nodes, t, x.drop_first(), steps.drop_first()) {
                    None => {},
                    Some((u, y, w)) => {
                        if u < nodes.len() && 0 <= j < nodes[u as int].outgoing.len() && covers(
                            nodes[u as int].outgoing[j].0,
                            c,
                        ) {
                            let e2 = nodes[u as int].outgoing[j].0;
                            let first = reflect(symbols_of(e.partial.output), x[0]);
                            let last = reflect(symbols_of(e2.partial.output), c);
                            assert(first + (y + last) =~= (first + y) + last);
                            lemma_wrapping_add_associative(
                                e.partial.weight,
                                w,
                                e2.partial.weight,
                            );
                        }
                    },
                }
            }
        }
    }
}

/// Where the graph is after an input that is not empty, when it is entered by
/// the edge `entry` and goes on by the steps: the node, the output and the
/// weight so far.
pub open spec fn reach(g: GView, x: Seq<A>, entry: int, steps: Seq<int>) -> Option<
    (NodeId, Seq<A>, W),
> {
    if x.len() == 0 || !(0 <= entry < g.incoming.len()) || !covers(g.incoming[entry].0, x[0]) {
        None
    } else {
        match follow(g.nodes, g.incoming[entry].1, x.drop_first(), steps) {
            None => None,
            Some((u, y, w)) => Some(
                (
                    u,
                    reflect(symbols_of(g.incoming[entry].0.partial.output), x[0]) + y,
                    g.incoming[entry].0.partial.weight.wrapping_add(w),
                ),
            ),
        }
    }
}

/// A run is a way to a node with an accepting state at its end.
pub proof fn lemma_run_by_reach(g: GView, x: Seq<A>, run: Run)
    ensures
        run_result(g, x, run) == match reach(g, x, run.entry, run.steps) {
            None => None,
            Some((u, y, w)) => if 0 <= run.exit < g.outgoing.len() && g.outgoing[run.exit].0 == u {
                Some(
                    (
                        y + strip_reflect(symbols_of(g.outgoing[run.exit].1.output)),
                        w.wrapping_add(g.outgoing[run.exit].1.weight),
                    ),
                )
            } else {
                None
            },
        },
{
}

/// A way into the graph that goes on by one more edge.
pub proof fn lemma_reach_push(g: GView, x: Seq<A>, entry: int, steps: Seq<int>, c: A, j: int)
    requires
        reach(g, x, entry, steps).is_some(),
        reach(g, x, entry, steps).unwrap().0 < g.nodes.len(),
        0 <= j < g.nodes[reach(g, x, entry, steps).unwrap().0 as int].outgoing.len(),
        covers(g.nodes[reach(g, x, entry, steps).unwrap().0 as int].outgoing[j].0, c),
        steps.len() + 1 == x.len(),
    ensures
        reach(g, x.push(c), entry, steps.push(j)) == Some(
            (
                g.nodes[reach(g, x, entry, steps).unwrap().0 as int].outgoing[j].1,
                reach(g, x, entry, steps).unwrap().1 + reflect(
                    symbols_of(
                        g.nodes[reach(g, x, entry, steps).unwrap().0 as int].outgoing[j].0.partial.output,
                    ),
                    c,
                ),
                reach(g, x, entry, steps).unwrap().2.wrapping_add(
                    g.nodes[reach(g, x, entry, steps).unwrap().0 as int].outgoing[j].0.partial.weight,
                ),
            ),
        ),
{
    let longer = x.push(c);
    assert(longer[0] == x[0]);
    assert(longer.drop_first() =~= x.drop_first().push(c));
    lemma_follow_push(g.nodes, g.incoming[entry].1, x.drop_first(), steps, c, j);
    let (u, y, w) = follow(g.nodes, g.incoming[entry].1, x.drop_first(), steps).unwrap();
    let e0 = g.incoming[entry].0;
    let e = g.nodes[u as int].outgoing[j].0;
    let first = reflect(symbols_of(e0.partial.output), x[0]);
    let last = reflect(symbols_of(e.partial.output), c);
    assert(first + (y + last) =~= (first + y) + last);
    lemma_wrapping_add_associative(e0.partial.weight, w, e.partial.weight);
}


/// Whether no state has two entries in the column.
pub open spec fn distinct_states(col: Seq<NodeView>) -> bool {
    forall|p: int, q: int|
        0 <= p < q < col.len() ==> (#[trigger] col[p]).state != (#[trigger] col[q]).state
}

/// A column in which no state has two entries has no more entries than there
/// are states.
pub proof fn lemma_distinct_len(col: Seq<NodeView>)
    requires
        distinct_states(col),
    ensures
        col.len() <= usize::MAX + 1,
{
    let states = col.map_values(|e: NodeView| e.state as int);
    assert forall|i: int, j: int|
        0 <= i < states.len() && 0 <= j < states.len() && i != j implies states[i]
        != states[j] by {
        if i < j {
            assert(col[i].state != col[j].state);
        } else {
            assert(col[j].state != col[i].state);
        }
    }
    states.unique_seq_to_set();
    let all = vstd::set_lib::set_int_range(0, usize::MAX + 1);
    vstd::set_lib::lemma_int_range(0, usize::MAX + 1);
    assert forall|v: int| states.to_set().contains(v) implies all.contains(v) by {
        let i = choose|i: int| 0 <= i < states.len() && states[i] == v;
        assert(states[i] == col[i].state as int);
    }
    vstd::set_lib::lemma_len_subset(states.to_set(), all);
}

/// Whether a column holds an entry for the state.
pub open spec fn has_state(col: Seq<NodeView>, t: usize) -> bool {
    exists|p: int| 0 <= p < col.len() && (#[trigger] col[p]).state == t
}

/// Whether the entry was made by the transition `tr` from the place `src`.
pub open spec fn made_by(e: NodeView, src: usize, tr: TransitionView) -> bool {
    e.prev_index == src && e.edge == Some(tr) && tr.target == Some(e.state)
}

/// Trying a transition keeps the entries of a column or puts the entry of
/// the transition in the place of one; it loses no state, and the state of
/// the transition is in the column afterwards.
pub proof fn lemma_step(col: Seq<NodeView>, src: usize, tr: TransitionView)
    ensures
        step(col, src, tr).len() >= col.len(),
        forall|p: int|
            0 <= p < step(col, src, tr).len() ==> (p < col.len() && #[trigger] step(col, src, tr)[p]
                == col[p]) || made_by(step(col, src, tr)[p], src, tr),
        forall|t: usize| has_state(col, t) ==> has_state(step(col, src, tr), t),
        tr.target.is_some() ==> has_state(step(col, src, tr), tr.target.unwrap()),
        distinct_states(col) ==> distinct_states(step(col, src, tr)),
{
    let after = step(col, src, tr);
    match tr.target {
        None => {},
        Some(t) => {
            let entry = NodeView { prev_index: src, state: t, edge: Some(tr) };
            if exists|p: int| 0 <= p < col.len() && (#[trigger] col[p]).state == t {
                let p = choose|p: int| 0 <= p < col.len() && (#[trigger] col[p]).state == t;
                assert forall|u: usize| has_state(col, u) implies has_state(after, u) by {
                    let q = choose|q: int| 0 <= q < col.len() && (#[trigger] col[q]).state == u;
                    assert(after[q].state == u);
                }
                assert(after[p].state == t);
                if distinct_states(col) {
                    assert forall|a: int, b: int| 0 <= a < b < after.len() implies (
                    #[trigger] after[a]).state != (#[trigger] after[b]).state by {
                        assert(after[a].state == col[a].state);
                        assert(after[b].state == col[b].state);
                    }
                }
            } else {
                assert forall|u: usize| has_state(col, u) implies has_state(after, u) by {
                    let q = choose|q: int| 0 <= q < col.len() && (#[trigger] col[q]).state == u;
                    assert(after[q].state == u);
                }
                assert(after[col.len() as int].state == t);
                if distinct_states(col) {
                    assert forall|a: int, b: int| 0 <= a < b < after.len() implies (
                    #[trigger] after[a]).state != (#[trigger] after[b]).state by {
                        assert(after[a] == col[a]);
                        if b < col.len() {
                            assert(after[b] == col[b]);
                        }
                    }
                }
            }
        },
    }
}

/// Trying transitions in turn keeps the entries of a column or puts entries
/// of these transitions in their places; it loses no state, and the state of
/// each of the transitions is in the column afterwards.
pub proof fn lemma_step_all(col: Seq<NodeView>, src: usize, trs: Seq<TransitionView>)
    ensures
        step_all(col, src, trs).len() >= col.len(),
        forall|p: int|
            0 <= p < step_all(col, src, trs).len() ==> (p < col.len() && #[trigger] step_all(
                col,
                src,
                trs,
            )[p] == col[p]) || exists|j: int|
                0 <= j < trs.len() && made_by(step_all(col, src, trs)[p], src, #[trigger] trs[j]),
        forall|t: usize| has_state(col, t) ==> has_state(step_all(col, src, trs), t),
        forall|j: int|
            0 <= j < trs.len() && (#[trigger] trs[j]).target.is_some() ==> has_state(
                step_all(col, src, trs),
                trs[j].target.unwrap(),
            ),
        distinct_states(col) ==> distinct_states(step_all(col, src, trs)),
    decreases trs.len(),
{
    if trs.len() > 0 {
        let front = trs.drop_last();
        let before = step_all(col, src, front);
        let after = step_all(col, src, trs);
        lemma_step_all(col, src, front);
        lemma_step(before, src, trs.last());
        assert forall|p: int| 0 <= p < after.len() implies (p < col.len() && #[trigger] after[p]
            == col[p]) || exists|j: int|
            0 <= j < trs.len() && made_by(after[p], src, #[trigger] trs[j]) by {
            if made_by(after[p], src, trs.last()) {
                assert(trs[trs.len() - 1] == trs.last());
            } else {
                assert(p < before.len() && after[p] == before[p]);
                if !(p < col.len() && before[p] == col[p]) {
                    let j = choose|j: int|
                        0 <= j < front.len() && made_by(before[p], src, #[trigger] front[j]);
                    assert(front[j] == trs[j]);
                }
            }
        }
        assert forall|j: int| 0 <= j < trs.len() && (#[trigger] trs[j]).target.is_some() implies has_state(
            after,
            trs[j].target.unwrap(),
        ) by {
            if j < front.len() {
                assert(front[j] == trs[j]);
                assert(has_state(before, front[j].target.unwrap()));
            }
        }
    }
}

/// Whether the entry was made, on `symbol`, by a transition from one of the
/// first `n` entries of the column `prev`.
pub open spec fn made_from(rg: RGView, prev: Seq<NodeView>, symbol: A, n: nat, e: NodeView) -> bool {
    e.prev_index < n && e.edge.is_some() && e.edge.unwrap().target == Some(e.state) && lookup(
        rg,
        prev[e.prev_index as int].state,
        symbol,
    ).contains(e.edge.unwrap())
}

/// No state has two entries in the next column, every entry of it was made
/// by a transition from an entry of the column before it, and every state
/// that such a transition leads to has an entry.
pub proof fn lemma_next_column(rg: RGView, prev: Seq<NodeView>, symbol: A, n: nat)
    requires
        n <= prev.len(),
        n <= usize::MAX + 1,
    ensures
        distinct_states(next_column_upto(rg, prev, symbol, n)),
        forall|p: int|
            0 <= p < next_column_upto(rg, prev, symbol, n).len() ==> made_from(
                rg,
                prev,
                symbol,
                n,
                #[trigger] next_column_upto(rg, prev, symbol, n)[p],
            ),
        forall|src: int, j: int|
            0 <= src < n && 0 <= j < lookup(rg, prev[src].state, symbol).len() && (#[trigger] lookup(
                rg,
                prev[src].state,
                symbol,
            )[j]).target.is_some() ==> has_state(
                next_column_upto(rg, prev, symbol, n),
                lookup(rg, prev[src].state, symbol)[j].target.unwrap(),
            ),
    decreases n,
{
    if n > 0 {
        let before = next_column_upto(rg, prev, symbol, (n - 1) as nat);
        let trs = lookup(rg, prev[n - 1].state, symbol);
        let after = next_column_upto(rg, prev, symbol, n);
        lemma_next_column(rg, prev, symbol, (n - 1) as nat);
        lemma_step_all(before, (n - 1) as usize, trs);
        assert forall|p: int| 0 <= p < after.len() implies made_from(
            rg,
            prev,
            symbol,
            n,
            #[trigger] after[p],
        ) by {
            if p < before.len() && after[p] == before[p] {
                assert(made_from(rg, prev, symbol, (n - 1) as nat, before[p]));
            } else {
                let j = choose|j: int|
                    0 <= j < trs.len() && made_by(after[p], (n - 1) as usize, #[trigger] trs[j]);
                assert(trs.contains(trs[j]));
            }
        }
        assert forall|src: int, j: int|
            0 <= src < n && 0 <= j < lookup(rg, prev[src].state, symbol).len() && (#[trigger] lookup(
                rg,
                prev[src].state,
                symbol,
            )[j]).target.is_some() implies has_state(
            after,
            lookup(rg, prev[src].state, symbol)[j].target.unwrap(),
        ) by {
            if src < n - 1 {
                assert(has_state(before, lookup(rg, prev[src].state, symbol)[j].target.unwrap()));
            } else {
                assert(trs[j].target.is_some());
            }
        }
    }
}

/// Whether the transition is that of an edge, among the listed ones, that
/// accepts the symbol.
pub open spec fn of_listed_edge(
    edges: Seq<(EView, NodeId)>,
    index_of: Seq<usize>,
    order: Seq<usize>,
    x: A,
    tr: TransitionView,
) -> bool {
    exists|p: int|
        0 <= p < order.len() && covers(edges[(#[trigger] order[p]) as int].0, x) && tr
            == transition_of(edges[order[p] as int], index_of)
}

/// The transitions that are active on a symbol are those of the edges, among
/// the listed ones, that accept it.
pub proof fn lemma_active_members(
    edges: Seq<(EView, NodeId)>,
    index_of: Seq<usize>,
    order: Seq<usize>,
    x: A,
)
    ensures
        forall|j: int|
            0 <= j < active(edges, index_of, order, x).len() ==> of_listed_edge(
                edges,
                index_of,
                order,
                x,
                #[trigger] active(edges, index_of, order, x)[j],
            ),
        forall|p: int|
            0 <= p < order.len() && covers(edges[(#[trigger] order[p]) as int].0, x) ==> active(
                edges,
                index_of,
                order,
                x,
            ).contains(transition_of(edges[order[p] as int], index_of)),
    decreases order.len(),
{
    if order.len() > 0 {
        let front = order.drop_last();
        let rest = active(edges, index_of, front, x);
        let all = active(edges, index_of, order, x);
        let k = order.last();
        lemma_active_members(edges, index_of, front, x);
        assert forall|j: int| 0 <= j < all.len() implies of_listed_edge(
            edges,
            index_of,
            order,
            x,
            #[trigger] all[j],
        ) by {
            if j < rest.len() {
                assert(of_listed_edge(edges, index_of, front, x, rest[j]));
                let p = choose|p: int|
                    0 <= p < front.len() && covers(edges[(#[trigger] front[p]) as int].0, x)
                        && rest[j] == transition_of(edges[front[p] as int], index_of);
                assert(order[p] == front[p]);
            } else {
                assert(order[order.len() - 1] == k);
            }
        }
        assert forall|p: int|
            0 <= p < order.len() && covers(
                edges[(#[trigger] order[p]) as int].0,
                x,
            ) implies all.contains(transition_of(edges[order[p] as int], index_of)) by {
            if p < front.len() {
                assert(order[p] == front[p]);
                let tr = transition_of(edges[front[p] as int], index_of);
                assert(rest.contains(tr));
                let j = choose|j: int| 0 <= j < rest.len() && rest[j] == tr;
                assert(all[j] == tr);
            } else {
                assert(all[all.len() - 1] == transition_of(edges[k as int], index_of));
            }
        }
    }
}


/// No state has two entries in a column of the evaluation, so that its
/// places can be counted by the machine.
pub proof fn lemma_column_bound(rg: RGView, x: Seq<A>, k: nat)
    ensures
        distinct_states(column(rg, x, k)),
        column(rg, x, k).len() <= usize::MAX + 1,
    decreases k,
{
    if k > 0 {
        lemma_column_bound(rg, x, (k - 1) as nat);
        let prev = column(rg, x, (k - 1) as nat);
        lemma_next_column(rg, prev, x[k - 1], prev.len());
    }
    lemma_distinct_len(column(rg, x, k));
}

/// The place that is chosen in a column holds an accepting state, and none
/// of the accepting states in the column has a greater final weight. No place
/// is chosen only where no state of the column accepts.
pub proof fn lemma_best_final(rg: RGView, col: Seq<NodeView>, n: nat)
    ensures
        match best_final(rg, col, n) {
            Some(b) => 0 <= b < n && rg.accepting[col[b].state as int].is_some() && forall|q: int|
                0 <= q < n && rg.accepting[(#[trigger] col[q]).state as int].is_some()
                    ==> rg.accepting[col[q].state as int].unwrap().weight
                    <= rg.accepting[col[b].state as int].unwrap().weight,
            None => forall|q: int|
                0 <= q < n ==> rg.accepting[(#[trigger] col[q]).state as int].is_none(),
        },
    decreases n,
{
    if n > 0 {
        lemma_best_final(rg, col, (n - 1) as nat);
    }
}

/// The edges that leave a state of the ranged graph: the ways into the graph
/// for the initial state, the edges of its node for any other.
pub open spec fn state_edges_of(g: GView, order: Seq<NodeId>, s: usize) -> Seq<(EView, NodeId)> {
    if s == 0 {
        g.incoming
    } else {
        g.nodes[order[s - 1] as int].outgoing
    }
}

/// Whether the machine can count the edges of every list of the graph.
pub open spec fn lists_fit(g: GView) -> bool {
    &&& g.incoming.len() <= usize::MAX
    &&& forall|v: int|
        0 <= v < g.nodes.len() ==> (#[trigger] g.nodes[v]).outgoing.len() <= usize::MAX
}

/// Whether the input holds no reflection marker.
pub open spec fn plain_input(x: Seq<A>) -> bool {
    forall|i: int| 0 <= i < x.len() ==> #[trigger] x[i] > REFLECT
}

/// Whether the transition is that of one of the edges that accept the symbol.
pub open spec fn of_edge(
    edges: Seq<(EView, NodeId)>,
    index_of: Seq<usize>,
    c: A,
    tr: TransitionView,
) -> bool {
    exists|k: int|
        0 <= k < edges.len() && covers((#[trigger] edges[k]).0, c) && tr == transition_of(
            edges[k],
            index_of,
        )
}

/// What a state of the ranged graph offers on a symbol are the transitions
/// of the edges that accept the symbol, and all of them.
pub proof fn lemma_state_lookup(g: GView, order: Seq<NodeId>, s: usize, c: A)
    requires
        g.wf(),
        reached_order(g, order),
        s <= order.len(),
        c > REFLECT,
    ensures
        forall|j: int|
            0 <= j < lookup(ranged(g, order), s, c).len() ==> of_edge(
                state_edges_of(g, order, s),
                index_table(order, g.nodes.len()),
                c,
                #[trigger] lookup(ranged(g, order), s, c)[j],
            ),
        state_edges_of(g, order, s).len() <= usize::MAX ==> forall|k: int|
            0 <= k < state_edges_of(g, order, s).len() && covers(
                (#[trigger] state_edges_of(g, order, s)[k]).0,
                c,
            ) ==> lookup(ranged(g, order), s, c).contains(
                transition_of(state_edges_of(g, order, s)[k], index_table(order, g.nodes.len())),
            ),
{
    let rg = ranged(g, order);
    let idx = index_table(order, g.nodes.len());
    let edges = state_edges_of(g, order, s);
    if s > 0 {
        assert(order.contains(order[s - 1]));
    }
    assert(rg.graph[s as int] == table(edges, idx));
    lemma_table_lookup(edges, idx, c);
    let listed = activation_order(edges, edges.len());
    let trs = lookup(rg, s, c);
    assert(trs == active(edges, idx, listed, c));
    lemma_active_members(edges, idx, listed, c);
    lemma_activation_order_bound(edges, edges.len());
    assert forall|j: int| 0 <= j < trs.len() implies of_edge(edges, idx, c, #[trigger] trs[j]) by {
        assert(of_listed_edge(edges, idx, listed, c, trs[j]));
        let p = choose|p: int|
            0 <= p < listed.len() && covers(edges[(#[trigger] listed[p]) as int].0, c) && trs[j]
                == transition_of(edges[listed[p] as int], idx);
        let k = listed[p] as int;
        assert(covers(edges[k].0, c));
    }
    if edges.len() <= usize::MAX {
        lemma_activation_order_perm(edges, edges.len());
        assert forall|k: int| 0 <= k < edges.len() && covers((#[trigger] edges[k]).0, c) implies trs.contains(
            transition_of(edges[k], idx),
        ) by {
            assert(listed.contains(k as usize));
            let p = choose|p: int| 0 <= p < listed.len() && listed[p] == k as usize;
            assert(covers(edges[listed[p] as int].0, c));
        }
    }
}

/// The state of a node that was reached is its place in the order, counted
/// from one.
pub proof fn lemma_state_of_node(g: GView, order: Seq<NodeId>, t: NodeId)
    requires
        reached_order(g, order),
        order.contains(t),
    ensures
        t < g.nodes.len(),
        1 <= index_table(order, g.nodes.len())[t as int] <= order.len(),
        order[index_table(order, g.nodes.len())[t as int] - 1] == t,
{
    let i = choose|i: int| 0 <= i < order.len() && order[i] == t;
    assert(0 <= order.index_of(t) < order.len() && order[order.index_of(t)] == t);
}

/// Whether the entry at the place `p` of the column `k` stands at the end of
/// the way that enters the graph by the edge `entry` and goes on by the
/// steps: its state is that of the node where the way ends, and the output
/// along its path is the output of the way.
pub open spec fn leads_to(
    g: GView,
    order: Seq<NodeId>,
    x: Seq<A>,
    k: nat,
    p: int,
    entry: int,
    steps: Seq<int>,
) -> bool {
    let rg = ranged(g, order);
    let e = column(rg, x, k)[p];
    let way = reach(g, x.subrange(0, k as int), entry, steps);
    &&& 1 <= e.state <= order.len()
    &&& steps.len() + 1 == k
    &&& way.is_some()
    &&& way.unwrap().0 == order[e.state - 1]
    &&& way.unwrap().1 == path_output(rg, x, k, p)
}

/// Every entry of every column of the evaluation stands at the end of a way
/// through the graph on the symbols read so far.
pub proof fn lemma_entry_reached(g: GView, order: Seq<NodeId>, x: Seq<A>, k: nat, p: int) -> (r: (
    int,
    Seq<int>,
))
    requires
        g.wf(),
        reached_order(g, order),
        plain_input(x),
        1 <= k <= x.len(),
        0 <= p < column(ranged(g, order), x, k).len(),
    ensures
        leads_to(g, order, x, k, p, r.0, r.1),
    decreases k,
{
    let rg = ranged(g, order);
    let idx = index_table(order, g.nodes.len());
    let prev = column(rg, x, (k - 1) as nat);
    let c = x[k - 1];
    lemma_column_bound(rg, x, (k - 1) as nat);
    lemma_next_column(rg, prev, c, prev.len());
    let e = column(rg, x, k)[p];
    assert(made_from(rg, prev, c, prev.len(), e));
    let src = e.prev_index;
    let tr = e.edge.unwrap();
    let trs = lookup(rg, prev[src as int].state, c);
    let j = choose|j: int| 0 <= j < trs.len() && trs[j] == tr;
    let upto = x.subrange(0, k as int);
    if k == 1 {
        assert(prev[0].state == 0);
        lemma_state_lookup(g, order, 0, c);
        assert(of_edge(g.incoming, idx, c, trs[j]));
        let kk = choose|kk: int|
            0 <= kk < g.incoming.len() && covers((#[trigger] g.incoming[kk]).0, c) && tr
                == transition_of(g.incoming[kk], idx);
        let t = g.incoming[kk].1;
        lemma_reachable_self(g.nodes, t);
        assert(reachable(g.nodes, g.incoming[kk].1, t));
        lemma_state_of_node(g, order, t);
        let none = Seq::<int>::empty();
        assert(upto.drop_first() =~= Seq::<A>::empty());
        assert(upto[0] == c);
        let out = reflect(symbols_of(g.incoming[kk].0.partial.output), c);
        assert(out + Seq::<A>::empty() =~= out);
        assert(path_output(rg, x, 0, src as int) =~= Seq::<A>::empty());
        assert(Seq::<A>::empty() + out =~= out);
        (kk, none)
    } else {
        let (entry, steps) = lemma_entry_reached(g, order, x, (k - 1) as nat, src as int);
        let s = prev[src as int].state;
        let u = order[s - 1];
        assert(order.contains(u));
        lemma_state_lookup(g, order, s, c);
        let edges = g.nodes[u as int].outgoing;
        assert(of_edge(edges, idx, c, trs[j]));
        let kk = choose|kk: int|
            0 <= kk < edges.len() && covers((#[trigger] edges[kk]).0, c) && tr == transition_of(
                edges[kk],
                idx,
            );
        let t = edges[kk].1;
        let i = choose|i: int|
            0 <= i < g.incoming.len() && #[trigger] reachable(g.nodes, g.incoming[i].1, u);
        assert(has_edge(g.nodes, u, t)) by {
            assert(g.nodes[u as int].outgoing[kk].1 == t);
        }
        lemma_reachable_step(g.nodes, g.incoming[i].1, u, t);
        assert(t < g.nodes.len());
        lemma_state_of_node(g, order, t);
        let before = x.subrange(0, k - 1);
        lemma_reach_push(g, before, entry, steps, c, kk);
        assert(before.push(c) =~= upto);
        (entry, steps.push(kk))
    }
}

/// What a list of accepting states says of a node is said by one of its
/// entries, and it says something of every node that has an entry.
pub proof fn lemma_final_of(finals: Seq<(NodeId, PView)>, node: NodeId)
    ensures
        final_of(finals, node).is_some() <==> exists|f: int|
            0 <= f < finals.len() && (#[trigger] finals[f]).0 == node,
        final_of(finals, node).is_some() ==> exists|f: int|
            0 <= f < finals.len() && #[trigger] finals[f] == (node, final_of(finals, node).unwrap()),
    decreases finals.len(),
{
    if finals.len() > 0 {
        let front = finals.drop_last();
        lemma_final_of(front, node);
        if finals.last().0 == node {
            assert(finals[finals.len() - 1] == (node, finals.last().1));
        } else {
            if final_of(front, node).is_some() {
                let f = choose|f: int|
                    0 <= f < front.len() && #[trigger] front[f] == (
                        node,
                        final_of(front, node).unwrap(),
                    );
                assert(finals[f] == front[f]);
            }
            if exists|f: int| 0 <= f < finals.len() && (#[trigger] finals[f]).0 == node {
                let f = choose|f: int| 0 <= f < finals.len() && (#[trigger] finals[f]).0 == node;
                assert(front[f] == finals[f]);
            }
        }
    }
}

/// What the ranged graph of a graph gives for an input, the graph accepts:
/// the evaluation follows a run of the graph, and its output is the output
/// of that run.
pub proof fn lemma_evaluation_sound(g: GView, order: Seq<NodeId>, x: Seq<A>)
    requires
        g.wf(),
        reached_order(g, order),
        plain_input(x),
        evaluate(ranged(g, order), x).is_some(),
    ensures
        exists|w: W| accepts(g, x, evaluate(ranged(g, order), x).unwrap(), w),
{
    let rg = ranged(g, order);
    let n = x.len();
    let last = column(rg, x, n);
    let y = evaluate(rg, x).unwrap();
    lemma_best_final(rg, last, last.len());
    let b = best_final(rg, last, last.len()).unwrap();
    if n == 0 {
        assert(last[0].state == 0);
        let p = g.epsilon.unwrap();
        assert(path_output(rg, x, 0, b) + strip_reflect(symbols_of(p.output)) =~= strip_reflect(
            symbols_of(p.output),
        ));
        assert(accepts(g, x, y, p.weight));
    } else {
        let (entry, steps) = lemma_entry_reached(g, order, x, n, b);
        assert(x.subrange(0, n as int) =~= x);
        let (u, y0, w0) = reach(g, x, entry, steps).unwrap();
        let s = last[b].state;
        assert(rg.accepting[s as int] == final_of(g.outgoing, u));
        lemma_final_of(g.outgoing, u);
        let pf = final_of(g.outgoing, u).unwrap();
        let f = choose|f: int| 0 <= f < g.outgoing.len() && #[trigger] g.outgoing[f] == (u, pf);
        let run = Run { entry, steps, exit: f };
        lemma_run_by_reach(g, x, run);
        let w = w0.wrapping_add(pf.weight);
        assert(run_result(g, x, run) == Some((y, w)));
        assert(accepts(g, x, y, w));
    }
}


/// A way takes one step for each symbol.
pub proof fn lemma_follow_len(nodes: Seq<NView>, v: NodeId, x: Seq<A>, steps: Seq<int>)
    requires
        follow(nodes, v, x, steps).is_some(),
    ensures
        steps.len() == x.len(),
    decreases x.len(),
{
    if x.len() > 0 {
        let t = nodes[v as int].outgoing[steps[0]].1;
        lemma_follow_len(nodes, t, x.drop_first(), steps.drop_first());
    }
}

/// The beginning of a way into the graph is a way into the graph, and the
/// way goes on from its end by an edge that accepts the next symbol.
pub proof fn lemma_reach_prefix(g: GView, x: Seq<A>, entry: int, steps: Seq<int>, k: nat)
    requires
        reach(g, x, entry, steps).is_some(),
        1 <= k <= x.len(),
    ensures
        steps.len() + 1 == x.len(),
        reach(g, x.subrange(0, k as int), entry, steps.subrange(0, k - 1)).is_some(),
        k < x.len() ==> {
            let u = reach(g, x.subrange(0, k as int), entry, steps.subrange(0, k - 1)).unwrap().0;
            &&& u < g.nodes.len()
            &&& 0 <= steps[k - 1] < g.nodes[u as int].outgoing.len()
            &&& covers(g.nodes[u as int].outgoing[steps[k - 1]].0, x[k as int])
            &&& reach(g, x.subrange(0, k as int + 1), entry, steps.subrange(0, k as int)).is_some()
            &&& reach(g, x.subrange(0, k as int + 1), entry, steps.subrange(0, k as int)).unwrap().0
                == g.nodes[u as int].outgoing[steps[k - 1]].1
        },
    decreases x.len() - k,
{
    lemma_follow_len(g.nodes, g.incoming[entry].1, x.drop_first(), steps);
    if k == x.len() {
        assert(x.subrange(0, k as int) =~= x);
        assert(steps.subrange(0, k - 1) =~= steps);
    } else {
        lemma_reach_prefix(g, x, entry, steps, k + 1);
        let short = x.subrange(0, k as int);
        let long = x.subrange(0, k as int + 1);
        let fewer = steps.subrange(0, k - 1);
        let more = steps.subrange(0, k as int);
        assert(long =~= short.push(x[k as int]));
        assert(more =~= fewer.push(steps[k - 1]));
        assert(long.drop_first() =~= short.drop_first().push(x[k as int]));
        assert(long[0] == short[0]);
        lemma_follow_push(
            g.nodes,
            g.incoming[entry].1,
            short.drop_first(),
            fewer,
            x[k as int],
            steps[k - 1],
        );
    }
}

/// The node in which a way into the graph is after `k` symbols has been
/// reached, and its state has an entry in the column `k` of the evaluation.
pub proof fn lemma_way_in_columns(
    g: GView,
    order: Seq<NodeId>,
    x: Seq<A>,
    entry: int,
    steps: Seq<int>,
    k: nat,
)
    requires
        g.wf(),
        reached_order(g, order),
        lists_fit(g),
        plain_input(x),
        reach(g, x, entry, steps).is_some(),
        1 <= k <= x.len(),
    ensures
        reach(g, x.subrange(0, k as int), entry, steps.subrange(0, k - 1)).is_some(),
        order.contains(
            reach(g, x.subrange(0, k as int), entry, steps.subrange(0, k - 1)).unwrap().0,
        ),
        has_state(
            column(ranged(g, order), x, k),
            index_table(order, g.nodes.len())[reach(
                g,
                x.subrange(0, k as int),
                entry,
                steps.subrange(0, k - 1),
            ).unwrap().0 as int],
        ),
    decreases k,
{
    let rg = ranged(g, order);
    let idx = index_table(order, g.nodes.len());
    let prev = column(rg, x, (k - 1) as nat);
    let c = x[k - 1];
    lemma_column_bound(rg, x, (k - 1) as nat);
    lemma_next_column(rg, prev, c, prev.len());
    lemma_reach_prefix(g, x, entry, steps, k);
    let upto = x.subrange(0, k as int);
    let u = reach(g, upto, entry, steps.subrange(0, k - 1)).unwrap().0;
    if k == 1 {
        assert(upto.drop_first() =~= Seq::<A>::empty());
        assert(upto[0] == c);
        assert(u == g.incoming[entry].1);
        lemma_reachable_self(g.nodes, u);
        assert(reachable(g.nodes, g.incoming[entry].1, u));
        assert(prev[0].state == 0);
        lemma_state_lookup(g, order, 0, c);
        let tr = transition_of(g.incoming[entry], idx);
        let trs = lookup(rg, 0, c);
        assert(covers(g.incoming[entry].0, c));
        assert(trs.contains(tr));
        let j = choose|j: int| 0 <= j < trs.len() && trs[j] == tr;
        assert(lookup(rg, prev[0].state, c)[j].target.is_some());
    } else {
        lemma_way_in_columns(g, order, x, entry, steps, (k - 1) as nat);
        lemma_reach_prefix(g, x, entry, steps, (k - 1) as nat);
        let before = reach(g, x.subrange(0, k - 1), entry, steps.subrange(0, k - 2)).unwrap().0;
        lemma_state_of_node(g, order, before);
        let s = idx[before as int];
        let p = choose|p: int| 0 <= p < prev.len() && (#[trigger] prev[p]).state == s;
        let edges = g.nodes[before as int].outgoing;
        assert(state_edges_of(g, order, s) == edges);
        lemma_state_lookup(g, order, s, c);
        let tr = transition_of(edges[steps[k - 2]], idx);
        let trs = lookup(rg, s, c);
        assert(covers(edges[steps[k - 2]].0, c));
        assert(trs.contains(tr));
        let j = choose|j: int| 0 <= j < trs.len() && trs[j] == tr;
        assert(lookup(rg, prev[p].state, c)[j].target.is_some());
        assert(u == edges[steps[k - 2]].1);
        let i = choose|i: int|
            0 <= i < g.incoming.len() && #[trigger] reachable(g.nodes, g.incoming[i].1, before);
        assert(has_edge(g.nodes, before, u)) by {
            assert(g.nodes[before as int].outgoing[steps[k - 2]].1 == u);
        }
        lemma_reachable_step(g.nodes, g.incoming[i].1, before, u);
    }
}

/// The final weight of the state that the evaluation chooses at the end of
/// the input.
pub open spec fn chosen_weight(rg: RGView, x: Seq<A>) -> W {
    let last = column(rg, x, x.len());
    rg.accepting[last[best_final(rg, last, last.len()).unwrap()].state as int].unwrap().weight
}

/// Where the graph has a run on an input, its ranged graph gives an output
/// for the input, and the state that the evaluation chooses accepts with a
/// final weight that is not less than that of the state in which the run
/// ends.
pub proof fn lemma_evaluation_complete(g: GView, order: Seq<NodeId>, x: Seq<A>, run: Run)
    requires
        g.wf(),
        reached_order(g, order),
        lists_fit(g),
        plain_input(x),
        run_result(g, x, run).is_some(),
    ensures
        evaluate(ranged(g, order), x).is_some(),
        chosen_weight(ranged(g, order), x) >= g.outgoing[run.exit].1.weight,
{
    let rg = ranged(g, order);
    let idx = index_table(order, g.nodes.len());
    let n = x.len();
    let last = column(rg, x, n);
    lemma_run_by_reach(g, x, run);
    lemma_way_in_columns(g, order, x, run.entry, run.steps, n);
    lemma_reach_prefix(g, x, run.entry, run.steps, n);
    assert(x.subrange(0, n as int) =~= x);
    assert(run.steps.subrange(0, n - 1) =~= run.steps);
    let u = reach(g, x, run.entry, run.steps).unwrap().0;
    lemma_state_of_node(g, order, u);
    let s = idx[u as int];
    let p = choose|p: int| 0 <= p < last.len() && (#[trigger] last[p]).state == s;
    assert(rg.accepting[s as int] == final_of(g.outgoing, u));
    lemma_final_of(g.outgoing, u);
    assert(g.outgoing[run.exit].0 == u);
    let pf = final_of(g.outgoing, u).unwrap();
    let f = choose|f: int| 0 <= f < g.outgoing.len() && #[trigger] g.outgoing[f] == (u, pf);
    assert(f == run.exit) by {
        if f < run.exit {
            assert(g.outgoing[f].0 != g.outgoing[run.exit].0);
        } else if run.exit < f {
            assert(g.outgoing[run.exit].0 != g.outgoing[f].0);
        }
    }
    lemma_best_final(rg, last, last.len());
    assert(rg.accepting[last[p].state as int].is_some());
}

/// The ranged graph of a graph gives an output for the empty input where the
/// graph accepts it, and then the output under which the graph accepts it.
pub proof fn lemma_evaluation_of_nothing(g: GView, order: Seq<NodeId>)
    requires
        g.wf(),
        reached_order(g, order),
    ensures
        evaluate(ranged(g, order), Seq::<A>::empty()) == match g.epsilon {
            None => None,
            Some(p) => Some(strip_reflect(symbols_of(p.output))),
        },
{
    let rg = ranged(g, order);
    let x = Seq::<A>::empty();
    let last = column(rg, x, 0);
    assert(last[0].state == 0);
    assert(best_final(rg, last, 0) == None::<int>);
    match g.epsilon {
        None => {},
        Some(p) => {
            assert(best_final(rg, last, 1) == Some(0int));
            assert(path_output(rg, x, 0, 0) + strip_reflect(symbols_of(p.output)) =~= strip_reflect(
                symbols_of(p.output),
            ));
        },
    }
}


/// A list of different numbers below a bound is not longer than the bound.
pub proof fn lemma_order_len(order: Seq<NodeId>, n: nat)
    requires
        order.no_duplicates(),
        forall|k: NodeId| order.contains(k) ==> k < n,
    ensures
        order.len() <= n,
{
    let places = order.map_values(|v: NodeId| v as int);
    assert forall|i: int, j: int|
        0 <= i < places.len() && 0 <= j < places.len() && i != j implies places[i]
        != places[j] by {
        assert(order[i] != order[j]);
    }
    places.unique_seq_to_set();
    let all = vstd::set_lib::set_int_range(0, n as int);
    vstd::set_lib::lemma_int_range(0, n as int);
    assert forall|v: int| places.to_set().contains(v) implies all.contains(v) by {
        let i = choose|i: int| 0 <= i < places.len() && places[i] == v;
        assert(order.contains(order[i]));
    }
    vstd::set_lib::lemma_len_subset(places.to_set(), all);
}

/// What the ranged graph of a graph gives for an input, the graph accepts.
pub proof fn lemma_compiled_sound(g: GView, rg: RGView, x: Seq<A>)
    requires
        g.wf(),
        g.nodes.len() < usize::MAX,
        is_ranged_of(g, rg),
        plain_input(x),
        evaluate(rg, x).is_some(),
    ensures
        exists|w: W| accepts(g, x, evaluate(rg, x).unwrap(), w),
{
    let order = choose|order: Seq<NodeId>|
        {
            &&& #[trigger] ranged(g, order) == rg
            &&& order.no_duplicates()
            &&& forall|k: NodeId|
                order.contains(k) <==> k < g.nodes.len() && exists|i: int|
                    0 <= i < g.incoming.len() && #[trigger] reachable(g.nodes, g.incoming[i].1, k)
        };
    lemma_order_len(order, g.nodes.len());
    lemma_evaluation_sound(g, order, x);
}

/// Where a graph accepts an input, its ranged graph gives an output for it.
pub proof fn lemma_compiled_complete(g: GView, rg: RGView, x: Seq<A>, y: Seq<A>, w: W)
    requires
        g.wf(),
        g.nodes.len() < usize::MAX,
        lists_fit(g),
        is_ranged_of(g, rg),
        plain_input(x),
        accepts(g, x, y, w),
    ensures
        evaluate(rg, x).is_some(),
{
    let order = choose|order: Seq<NodeId>|
        {
            &&& #[trigger] ranged(g, order) == rg
            &&& order.no_duplicates()
            &&& forall|k: NodeId|
                order.contains(k) <==> k < g.nodes.len() && exists|i: int|
                    0 <= i < g.incoming.len() && #[trigger] reachable(g.nodes, g.incoming[i].1, k)
        };
    lemma_order_len(order, g.nodes.len());
    if x.len() == 0 {
        lemma_evaluation_of_nothing(g, order);
    } else {
        let run = choose|run: Run| #[trigger] run_result(g, x, run) == Some((y, w));
        lemma_evaluation_complete(g, order, x, run);
    }
}

/// The machine can count the edges of every list of a graph that it holds.
pub proof fn lemma_graph_lists_fit(g: &G)
    ensures
        lists_fit(g@),
{
    assert(g.incoming.len() == g@.incoming.len());
    assert forall|v: int| 0 <= v < g@.nodes.len() implies (#[trigger] g@.nodes[v]).outgoing.len()
        <= usize::MAX by {
        let held = g.pool.nodes@[v];
        assert(g@.nodes[v] == held@);
        assert(held.outgoing.len() == held@.outgoing.len());
    }
}

} // verus!
