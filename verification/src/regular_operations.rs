use crate::compilation_error::CompErr;
use crate::e::{EView, E};
use crate::g::{
    clone_epsilon, edges_within, epsilon_graph, epsilon_view, finals_view, finals_within,
    pool_closed, GView, G,
};
use crate::n::{edges_view, NView, NodeId, N};
use crate::p::{is_neutral, multiply_view, neutral_view, PView, PartialEdge, P};
use crate::pool::Pool;
use crate::v::V;
use vstd::prelude::*;

verus! {

/// The edges with every target moved up by `k`.
pub open spec fn shift_edges(edges: Seq<(EView, NodeId)>, k: nat) -> Seq<(EView, NodeId)> {
    edges.map_values(|x: (EView, NodeId)| (x.0, (x.1 + k) as usize))
}

/// The nodes with every edge target moved up by `k`.
pub open spec fn shift_nodes(nodes: Seq<NView>, k: nat) -> Seq<NView> {
    nodes.map_values(|n: NView| NView { meta: n.meta, outgoing: shift_edges(n.outgoing, k) })
}

/// The accepting states with every state moved up by `k`.
pub open spec fn shift_finals(finals: Seq<(NodeId, PView)>, k: nat) -> Seq<(NodeId, PView)> {
    finals.map_values(|x: (NodeId, PView)| ((x.0 + k) as usize, x.1))
}

/// The edges with `p` multiplied in front of every partial edge.
pub open spec fn left_act_edges(p: PView, edges: Seq<(EView, NodeId)>) -> Seq<(EView, NodeId)> {
    edges.map_values(
        |x: (EView, NodeId)| (EView { partial: multiply_view(p, x.0.partial), ..x.0 }, x.1),
    )
}

/// The accepting states with `p` multiplied behind every final partial edge.
pub open spec fn right_act_finals(finals: Seq<(NodeId, PView)>, p: PView) -> Seq<(NodeId, PView)> {
    finals.map_values(|x: (NodeId, PView)| (x.0, multiply_view(x.1, p)))
}

/// The nodes after every accepting state of `finals` got, in turn, one new edge
/// for each edge of `entries`: the entry edge with the state's final partial
/// edge multiplied in front of it.
pub open spec fn connect(
    nodes: Seq<NView>,
    finals: Seq<(NodeId, PView)>,
    entries: Seq<(EView, NodeId)>,
) -> Seq<NView>
    decreases finals.len(),
{
    if finals.len() == 0 {
        nodes
    } else {
        let before = connect(nodes, finals.drop_last(), entries);
        let v = finals.last().0 as int;
        before.update(
            v,
            NView {
                meta: before[v].meta,
                outgoing: before[v].outgoing + left_act_edges(finals.last().1, entries),
            },
        )
    }
}

/// Connecting keeps the number of nodes, and keeps every edge inside the pool
/// if the entries lead into it.
pub proof fn lemma_connect_closed(
    nodes: Seq<NView>,
    finals: Seq<(NodeId, PView)>,
    entries: Seq<(EView, NodeId)>,
    n: nat,
)
    requires
        nodes.len() <= n,
        forall|k: int| 0 <= k < nodes.len() ==> edges_within((#[trigger] nodes[k]).outgoing, n),
        forall|i: int| 0 <= i < finals.len() ==> (#[trigger] finals[i]).0 < nodes.len(),
        edges_within(entries, n),
    ensures
        connect(nodes, finals, entries).len() == nodes.len(),
        forall|k: int|
            0 <= k < nodes.len() ==> edges_within(
                (#[trigger] connect(nodes, finals, entries)[k]).outgoing,
                n,
            ),
        forall|k: int|
            0 <= k < nodes.len() ==> (#[trigger] connect(nodes, finals, entries)[k]).meta
                == nodes[k].meta,
    decreases finals.len(),
{
    if finals.len() > 0 {
        lemma_connect_closed(nodes, finals.drop_last(), entries, n);
        let before = connect(nodes, finals.drop_last(), entries);
        let v = finals.last().0 as int;
        let added = left_act_edges(finals.last().1, entries);
        assert forall|i: int| 0 <= i < added.len() implies (#[trigger] added[i]).1 < n
            && added[i].0.from_exclusive < added[i].0.to_inclusive by {
            assert(entries[i].1 < n);
        }
        assert(edges_within(before[v].outgoing, n));
        let joined = before[v].outgoing + added;
        assert forall|i: int| 0 <= i < joined.len() implies (#[trigger] joined[i]).1 < n
            && joined[i].0.from_exclusive < joined[i].0.to_inclusive by {
            if i < before[v].outgoing.len() {
                assert(joined[i] == before[v].outgoing[i]);
            } else {
                assert(joined[i] == added[i - before[v].outgoing.len()]);
            }
        }
    }
}

/// Gives every accepting state of `finals` one new edge for each edge of
/// `entries`; see `connect`.
pub fn connect_all(pool: &mut Pool, finals: &Vec<(NodeId, P)>, entries: &Vec<(E, NodeId)>)
    requires
        forall|i: int| 0 <= i < finals@.len() ==> (#[trigger] finals@[i]).0 < old(pool)@.len(),
    ensures
        final(pool)@ == connect(old(pool)@, finals_view(finals@), edges_view(entries@)),
        final(pool)@.len() == old(pool)@.len(),
{
    let ghost fs = finals_view(finals@);
    let ghost es = edges_view(entries@);
    let mut i: usize = 0;
    assert(fs.subrange(0, 0) =~= Seq::empty());
    while i < finals.len()
        invariant
            i <= finals.len(),
            fs == finals_view(finals@),
            es == edges_view(entries@),
            pool@.len() == old(pool)@.len(),
            forall|i: int| 0 <= i < finals@.len() ==> (#[trigger] finals@[i]).0 < old(pool)@.len(),
            pool@ == connect(old(pool)@, fs.subrange(0, i as int), es),
        decreases finals.len() - i,
    {
        let v = finals[i].0;
        let ghost before = pool@;
        let ghost p = finals@[i as int].1@;
        let mut j: usize = 0;
        assert(es.subrange(0, 0) =~= Seq::empty());
        assert(before[v as int].outgoing + left_act_edges(p, es.subrange(0, 0))
            =~= before[v as int].outgoing);
        assert(before =~= before.update(
            v as int,
            NView { meta: before[v as int].meta, outgoing: before[v as int].outgoing },
        ));
        while j < entries.len()
            invariant
                j <= entries.len(),
                i < finals.len(),
                v == finals@[i as int].0,
                p == finals@[i as int].1@,
                v < before.len(),
                es == edges_view(entries@),
                pool@.len() == before.len(),
                pool@ == before.update(
                    v as int,
                    NView {
                        meta: before[v as int].meta,
                        outgoing: before[v as int].outgoing + left_act_edges(
                            p,
                            es.subrange(0, j as int),
                        ),
                    },
                ),
            decreases entries.len() - j,
        {
            let e = finals[i].1.left_action(&entries[j].0);
            let t = entries[j].1;
            proof {
                assert(es.subrange(0, j + 1) =~= es.subrange(0, j as int).push(es[j as int]));
                assert(left_act_edges(p, es.subrange(0, j + 1)) =~= left_act_edges(
                    p,
                    es.subrange(0, j as int),
                ).push((e@, t)));
                assert((before[v as int].outgoing + left_act_edges(
                    p,
                    es.subrange(0, j as int),
                )).push((e@, t)) =~= before[v as int].outgoing + left_act_edges(
                    p,
                    es.subrange(0, j + 1),
                ));
            }
            N::push(v, (e, t), pool);
            j = j + 1;
            assert(pool@ =~= before.update(
                v as int,
                NView {
                    meta: before[v as int].meta,
                    outgoing: before[v as int].outgoing + left_act_edges(
                        p,
                        es.subrange(0, j as int),
                    ),
                },
            ));
        }
        proof {
            assert(es.subrange(0, j as int) =~= es);
            let upto = fs.subrange(0, i + 1);
            assert(upto.drop_last() =~= fs.subrange(0, i as int));
            assert(upto.last() == fs[i as int]);
        }
        i = i + 1;
    }
    assert(fs.subrange(0, i as int) =~= fs);
}


/// Moves every target of the list up by `k`.
pub fn shift_edge_targets(edges: &mut Vec<(E, NodeId)>, k: usize)
    requires
        forall|i: int| 0 <= i < old(edges)@.len() ==> (#[trigger] old(edges)@[i]).1 + k <= usize::MAX,
    ensures
        edges_view(final(edges)@) == shift_edges(edges_view(old(edges)@), k as nat),
{
    let mut j: usize = 0;
    while j < edges.len()
        invariant
            j <= edges.len(),
            edges@.len() == old(edges)@.len(),
            forall|i: int| 0 <= i < j ==> (#[trigger] edges@[i]).0 == old(edges)@[i].0 && edges@[i].1
                == old(edges)@[i].1 + k,
            forall|i: int| j <= i < edges@.len() ==> #[trigger] edges@[i] == old(edges)@[i],
            forall|i: int| 0 <= i < old(edges)@.len() ==> (#[trigger] old(edges)@[i]).1 + k <= usize::MAX,
        decreases edges.len() - j,
    {
        let t = edges[j].1;
        assert(old(edges)@[j as int].1 + k <= usize::MAX);
        edges[j].1 = t + k;
        j = j + 1;
    }
    assert(edges_view(edges@) =~= shift_edges(edges_view(old(edges)@), k as nat));
}

/// Moves every state of the list up by `k`.
pub fn shift_final_states(finals: &mut Vec<(NodeId, P)>, k: usize)
    requires
        forall|i: int| 0 <= i < old(finals)@.len() ==> (#[trigger] old(finals)@[i]).0 + k <= usize::MAX,
    ensures
        finals_view(final(finals)@) == shift_finals(finals_view(old(finals)@), k as nat),
{
    let mut j: usize = 0;
    while j < finals.len()
        invariant
            j <= finals.len(),
            finals@.len() == old(finals)@.len(),
            forall|i: int| 0 <= i < j ==> (#[trigger] finals@[i]).1 == old(finals)@[i].1 && finals@[i].0
                == old(finals)@[i].0 + k,
            forall|i: int| j <= i < finals@.len() ==> #[trigger] finals@[i] == old(finals)@[i],
            forall|i: int| 0 <= i < old(finals)@.len() ==> (#[trigger] old(finals)@[i]).0 + k <= usize::MAX,
        decreases finals.len() - j,
    {
        let t = finals[j].0;
        assert(old(finals)@[j as int].0 + k <= usize::MAX);
        finals[j].0 = t + k;
        j = j + 1;
    }
    assert(finals_view(finals@) =~= shift_finals(finals_view(old(finals)@), k as nat));
}

/// Takes the nodes of `other` into `pool`, behind its own: a node that had the
/// name `i` in `other` has the name `i + k` afterwards, where `k` is the number
/// of nodes that `pool` had before.
pub fn absorb(pool: &mut Pool, other: Pool)
    requires
        pool_closed(other@),
    ensures
        final(pool)@ == old(pool)@ + shift_nodes(other@, old(pool)@.len()),
{
    let k = pool.nodes.len();
    let mut other = other;
    let ghost theirs = other@;
    pool.nodes.append(&mut other.nodes);
    let total = pool.nodes.len();
    let mut i: usize = k;
    assert(pool@ =~= old(pool)@ + theirs);
    while i < total
        invariant
            k <= i <= total,
            k == old(pool)@.len(),
            total == k + theirs.len(),
            total == pool@.len(),
            pool_closed(theirs),
            forall|x: int| 0 <= x < k ==> #[trigger] pool@[x] == old(pool)@[x],
            forall|x: int| k <= x < i ==> #[trigger] pool@[x] == shift_nodes(theirs, k as nat)[x - k],
            forall|x: int| i <= x < total ==> #[trigger] pool@[x] == theirs[x - k],
        decreases total - i,
    {
        let ghost before = pool@;
        assert(pool@[i as int] == theirs[i - k]);
        assert(edges_within(theirs[i - k].outgoing, theirs.len()));
        assert forall|x: int| 0 <= x < pool.nodes@[i as int].outgoing@.len() implies (
        #[trigger] pool.nodes@[i as int].outgoing@[x]).1 + k <= usize::MAX by {
            assert(edges_view(pool.nodes@[i as int].outgoing@)[x].1 < theirs.len());
        }
        shift_edge_targets(&mut pool.nodes[i].outgoing, k);
        assert(pool@ =~= before.update(i as int, shift_nodes(theirs, k as nat)[i - k]));
        i = i + 1;
    }
    assert(pool@ =~= old(pool)@ + shift_nodes(theirs, k as nat));
}

/// Shifting keeps a closed pool closed under the larger bound.
pub proof fn lemma_shift_closed(nodes: Seq<NView>, k: nat)
    requires
        pool_closed(nodes),
        nodes.len() + k <= usize::MAX,
    ensures
        forall|x: int|
            0 <= x < nodes.len() ==> edges_within(
                (#[trigger] shift_nodes(nodes, k)[x]).outgoing,
                nodes.len() + k,
            ),
{
    assert forall|x: int| 0 <= x < nodes.len() implies edges_within(
        (#[trigger] shift_nodes(nodes, k)[x]).outgoing,
        nodes.len() + k,
    ) by {
        assert(edges_within(nodes[x].outgoing, nodes.len()));
        lemma_shift_edges_within(nodes[x].outgoing, nodes.len(), k);
    }
}

/// Shifted edges lead into the shifted range.
pub proof fn lemma_shift_edges_within(edges: Seq<(EView, NodeId)>, n: nat, k: nat)
    requires
        edges_within(edges, n),
        n + k <= usize::MAX,
    ensures
        edges_within(shift_edges(edges, k), n + k),
        forall|i: int| 0 <= i < edges.len() ==> (#[trigger] shift_edges(edges, k)[i]).1 >= k,
{
    assert forall|i: int| 0 <= i < edges.len() implies (#[trigger] shift_edges(edges, k)[i]).1 < n
        + k && shift_edges(edges, k)[i].0.from_exclusive < shift_edges(edges, k)[i].0.to_inclusive
        && shift_edges(edges, k)[i].1 >= k by {
        assert(edges[i].1 < n);
    }
}


/// Connecting touches only the nodes that accept: nodes behind them stay.
pub proof fn lemma_connect_append(
    a: Seq<NView>,
    b: Seq<NView>,
    finals: Seq<(NodeId, PView)>,
    entries: Seq<(EView, NodeId)>,
)
    requires
        forall|i: int| 0 <= i < finals.len() ==> (#[trigger] finals[i]).0 < a.len(),
    ensures
        connect(a + b, finals, entries) == connect(a, finals, entries) + b,
        connect(a, finals, entries).len() == a.len(),
    decreases finals.len(),
{
    if finals.len() > 0 {
        lemma_connect_append(a, b, finals.drop_last(), entries);
        assert(finals.last().0 < a.len());
        assert(connect(a + b, finals, entries) =~= connect(a, finals, entries) + b);
    } else {
        assert(connect(a + b, finals, entries) =~= connect(a, finals, entries) + b);
    }
}

/// Which epsilon a union has: the one of greater weight; of two with the same
/// weight either, if their outputs agree. Two with the same weight and
/// different outputs have no union: the second of them is handed back.
pub open spec fn epsilon_union_view(l: Option<PView>, r: Option<PView>) -> Result<
    Option<PView>,
    PView,
> {
    match (l, r) {
        (None, _) => Ok(r),
        (Some(_), None) => Ok(l),
        (Some(a), Some(b)) => if a.weight > b.weight {
            Ok(l)
        } else if a.weight < b.weight {
            Ok(r)
        } else if a.output == b.output {
            Ok(r)
        } else {
            Err(b)
        },
    }
}

/// The union of two graphs with the epsilon `eps`: the nodes of `r` get new
/// names behind those of `l`, and the ways in and the accepting states of both
/// stand side by side.
pub open spec fn union_graph(l: GView, r: GView, eps: Option<PView>) -> GView {
    let k = l.nodes.len();
    GView {
        nodes: l.nodes + shift_nodes(r.nodes, k),
        incoming: l.incoming + shift_edges(r.incoming, k),
        outgoing: l.outgoing + shift_finals(r.outgoing, k),
        epsilon: eps,
    }
}

/// The concatenation of two graphs. If either accepts nothing, so does the
/// concatenation, and that graph is the result. Otherwise every accepting
/// state of `l` is connected to every way into `r`; where `l` accepts the empty
/// input, the ways into `r` are ways into the result; where `r` does, the
/// accepting states of `l` accept in the result too.
pub open spec fn concat_graph(l: GView, r: GView) -> GView {
    if l.is_empty() {
        l
    } else if r.is_empty() {
        r
    } else {
        let k = l.nodes.len();
        let entries = shift_edges(r.incoming, k);
        GView {
            nodes: connect(l.nodes, l.outgoing, entries) + shift_nodes(r.nodes, k),
            incoming: match l.epsilon {
                Some(le) => l.incoming + left_act_edges(le, entries),
                None => l.incoming,
            },
            outgoing: match r.epsilon {
                Some(re) => shift_finals(r.outgoing, k) + right_act_finals(l.outgoing, re),
                None => shift_finals(r.outgoing, k),
            },
            epsilon: match (l.epsilon, r.epsilon) {
                (Some(le), Some(re)) => Some(multiply_view(le, re)),
                _ => None,
            },
        }
    }
}

/// The graph with every accepting state connected back to every way in.
pub open spec fn loop_graph(g: GView) -> GView {
    GView { nodes: connect(g.nodes, g.outgoing, g.incoming), ..g }
}

/// The union of two well-formed graphs is well formed.
pub proof fn lemma_union_wf(l: GView, r: GView, eps: Option<PView>)
    requires
        l.wf(),
        r.wf(),
        l.nodes.len() + r.nodes.len() <= usize::MAX,
    ensures
        union_graph(l, r, eps).wf(),
{
    let k = l.nodes.len();
    let u = union_graph(l, r, eps);
    lemma_shift_closed(r.nodes, k);
    lemma_shift_edges_within(r.incoming, r.nodes.len(), k);
    assert forall|x: int| 0 <= x < u.nodes.len() implies edges_within(
        (#[trigger] u.nodes[x]).outgoing,
        u.nodes.len(),
    ) by {
        if x < k {
            assert(u.nodes[x] == l.nodes[x]);
            assert(edges_within(l.nodes[x].outgoing, k));
        } else {
            assert(u.nodes[x] == shift_nodes(r.nodes, k)[x - k]);
        }
    }
    assert forall|i: int| 0 <= i < u.incoming.len() implies (#[trigger] u.incoming[i]).1
        < u.nodes.len() && u.incoming[i].0.from_exclusive < u.incoming[i].0.to_inclusive by {
        if i < l.incoming.len() {
            assert(u.incoming[i] == l.incoming[i]);
        } else {
            assert(u.incoming[i] == shift_edges(r.incoming, k)[i - l.incoming.len()]);
        }
    }
    assert forall|i: int| 0 <= i < r.outgoing.len() implies k <= (#[trigger] shift_finals(
        r.outgoing,
        k,
    )[i]).0 < u.nodes.len() by {
        assert(r.outgoing[i].0 < r.nodes.len());
    }
    assert forall|i: int, j: int| 0 <= i < j < r.outgoing.len() implies (#[trigger] shift_finals(
        r.outgoing,
        k,
    )[i]).0 != (#[trigger] shift_finals(r.outgoing, k)[j]).0 by {
        assert(r.outgoing[i].0 != r.outgoing[j].0);
    }
    lemma_finals_join(l.outgoing, shift_finals(r.outgoing, k), k, u.nodes.len());
}

/// Two lists of accepting states, one below `k` and one from `k` on, each
/// without repetition, make one list without repetition.
pub proof fn lemma_finals_join(
    low: Seq<(NodeId, PView)>,
    high: Seq<(NodeId, PView)>,
    k: nat,
    n: nat,
)
    requires
        k <= n,
        finals_within(low, k),
        forall|i: int| 0 <= i < high.len() ==> k <= (#[trigger] high[i]).0 < n,
        forall|i: int, j: int|
            0 <= i < j < high.len() ==> (#[trigger] high[i]).0 != (#[trigger] high[j]).0,
    ensures
        finals_within(low + high, n),
        finals_within(high + low, n),
{
    let a = low + high;
    assert forall|i: int| 0 <= i < a.len() implies (#[trigger] a[i]).0 < n by {
        if i < low.len() {
            assert(a[i] == low[i]);
        } else {
            assert(a[i] == high[i - low.len()]);
        }
    }
    assert forall|i: int, j: int| 0 <= i < j < a.len() implies (#[trigger] a[i]).0 != (
    #[trigger] a[j]).0 by {
        if j < low.len() {
            assert(a[i] == low[i] && a[j] == low[j]);
        } else if i < low.len() {
            assert(a[i] == low[i] && a[j] == high[j - low.len()]);
        } else {
            assert(a[i] == high[i - low.len()] && a[j] == high[j - low.len()]);
        }
    }
    let b = high + low;
    assert forall|i: int| 0 <= i < b.len() implies (#[trigger] b[i]).0 < n by {
        if i < high.len() {
            assert(b[i] == high[i]);
        } else {
            assert(b[i] == low[i - high.len()]);
        }
    }
    assert forall|i: int, j: int| 0 <= i < j < b.len() implies (#[trigger] b[i]).0 != (
    #[trigger] b[j]).0 by {
        if j < high.len() {
            assert(b[i] == high[i] && b[j] == high[j]);
        } else if i < high.len() {
            assert(b[i] == high[i] && b[j] == low[j - high.len()]);
        } else {
            assert(b[i] == low[i - high.len()] && b[j] == low[j - high.len()]);
        }
    }
}

/// The concatenation of two well-formed graphs is well formed.
pub proof fn lemma_concat_wf(l: GView, r: GView)
    requires
        l.wf(),
        r.wf(),
        l.nodes.len() + r.nodes.len() <= usize::MAX,
    ensures
        concat_graph(l, r).wf(),
{
    if !l.is_empty() && !r.is_empty() {
        let k = l.nodes.len();
        let n = k + r.nodes.len();
        let c = concat_graph(l, r);
        let entries = shift_edges(r.incoming, k);
        lemma_shift_closed(r.nodes, k);
        lemma_shift_edges_within(r.incoming, r.nodes.len(), k);
        assert forall|x: int| 0 <= x < l.nodes.len() implies edges_within(
            (#[trigger] l.nodes[x]).outgoing,
            n,
        ) by {
            assert(edges_within(l.nodes[x].outgoing, k));
        }
        lemma_connect_closed(l.nodes, l.outgoing, entries, n);
        let joined = connect(l.nodes, l.outgoing, entries);
        assert forall|x: int| 0 <= x < c.nodes.len() implies edges_within(
            (#[trigger] c.nodes[x]).outgoing,
            c.nodes.len(),
        ) by {
            if x < k {
                assert(c.nodes[x] == joined[x]);
            } else {
                assert(c.nodes[x] == shift_nodes(r.nodes, k)[x - k]);
            }
        }
        assert forall|i: int| 0 <= i < c.incoming.len() implies (#[trigger] c.incoming[i]).1 < n
            && c.incoming[i].0.from_exclusive < c.incoming[i].0.to_inclusive by {
            if i < l.incoming.len() {
                assert(c.incoming[i] == l.incoming[i]);
            } else {
                let le = l.epsilon.unwrap();
                assert(c.incoming[i] == left_act_edges(le, entries)[i - l.incoming.len()]);
                assert(entries[i - l.incoming.len()].1 < n);
            }
        }
        let high = shift_finals(r.outgoing, k);
        assert forall|i: int| 0 <= i < high.len() implies k <= (#[trigger] high[i]).0 < n by {
            assert(r.outgoing[i].0 < r.nodes.len());
        }
        assert forall|i: int, j: int| 0 <= i < j < high.len() implies (#[trigger] high[i]).0 != (
        #[trigger] high[j]).0 by {
            assert(r.outgoing[i].0 != r.outgoing[j].0);
        }
        match r.epsilon {
            Some(re) => {
                let low = right_act_finals(l.outgoing, re);
                assert forall|i: int| 0 <= i < low.len() implies (#[trigger] low[i]).0 < k by {
                    assert(l.outgoing[i].0 < k);
                }
                assert forall|i: int, j: int| 0 <= i < j < low.len() implies (#[trigger] low[i]).0
                    != (#[trigger] low[j]).0 by {
                    assert(l.outgoing[i].0 != l.outgoing[j].0);
                }
                lemma_finals_join(low, high, k, n);
            },
            None => {
                lemma_finals_join(Seq::empty(), high, k, n);
                assert(high + Seq::<(NodeId, PView)>::empty() =~= high);
            },
        }
    }
}

/// Connecting the accepting states of a well-formed graph to its own ways in
/// keeps it well formed.
pub proof fn lemma_loop_wf(g: GView)
    requires
        g.wf(),
    ensures
        loop_graph(g).wf(),
{
    lemma_connect_closed(g.nodes, g.outgoing, g.incoming, g.nodes.len());
}


/// Appends to `into` the edges of `entries` with `p` multiplied in front.
pub fn push_left_acted(into: &mut Vec<(E, NodeId)>, p: &P, entries: &Vec<(E, NodeId)>)
    ensures
        edges_view(final(into)@) == edges_view(old(into)@) + left_act_edges(
            p@,
            edges_view(entries@),
        ),
{
    let ghost es = edges_view(entries@);
    let ghost start = edges_view(into@);
    let mut j: usize = 0;
    assert(start + left_act_edges(p@, es.subrange(0, 0)) =~= start);
    while j < entries.len()
        invariant
            j <= entries.len(),
            es == edges_view(entries@),
            edges_view(into@) == start + left_act_edges(p@, es.subrange(0, j as int)),
        decreases entries.len() - j,
    {
        let e = p.left_action(&entries[j].0);
        let t = entries[j].1;
        proof {
            assert(edges_view(into@.push((e, t))) =~= edges_view(into@).push((e@, t)));
            assert(start + left_act_edges(p@, es.subrange(0, j + 1)) =~= (start + left_act_edges(
                p@,
                es.subrange(0, j as int),
            )).push((e@, t)));
        }
        into.push((e, t));
        j = j + 1;
    }
    assert(es.subrange(0, j as int) =~= es);
}

/// Appends to `into` the accepting states of `finals` with `p` multiplied
/// behind their final partial edges.
pub fn push_right_acted(into: &mut Vec<(NodeId, P)>, finals: &Vec<(NodeId, P)>, p: &P)
    ensures
        finals_view(final(into)@) == finals_view(old(into)@) + right_act_finals(
            finals_view(finals@),
            p@,
        ),
{
    let ghost fs = finals_view(finals@);
    let ghost start = finals_view(into@);
    let mut j: usize = 0;
    assert(start + right_act_finals(fs.subrange(0, 0), p@) =~= start);
    while j < finals.len()
        invariant
            j <= finals.len(),
            fs == finals_view(finals@),
            finals_view(into@) == start + right_act_finals(fs.subrange(0, j as int), p@),
        decreases finals.len() - j,
    {
        let q = finals[j].1.multiply(p);
        let v = finals[j].0;
        proof {
            assert(finals_view(into@.push((v, q))) =~= finals_view(into@).push((v, q@)));
            assert(start + right_act_finals(fs.subrange(0, j + 1), p@) =~= (start
                + right_act_finals(fs.subrange(0, j as int), p@)).push((v, q@)));
        }
        into.push((v, q));
        j = j + 1;
    }
    assert(fs.subrange(0, j as int) =~= fs);
}

impl G {
    /// Which of two epsilons a union keeps; see `epsilon_union_view`.
    pub fn epsilon_union<'a>(pos: V, lhs: &'a Option<P>, rhs: &'a Option<P>) -> (r: Result<
        &'a Option<P>,
        CompErr,
    >)
        ensures
            match epsilon_union_view(epsilon_view(*lhs), epsilon_view(*rhs)) {
                Ok(eps) => r.is_ok() && epsilon_view(*r.unwrap()) == eps,
                Err(b) => r matches Err(CompErr::KleeneNondeterminism(p, e)) && p == pos && e@
                    == b,
            },
    {
        match lhs {
            None => Ok(rhs),
            Some(l) => match rhs {
                None => Ok(lhs),
                Some(r) => {
                    if l.weight() > r.weight() {
                        Ok(lhs)
                    } else if l.weight() < r.weight() {
                        Ok(rhs)
                    } else if l.output().eq(r.output()) {
                        Ok(rhs)
                    } else {
                        Err(CompErr::KleeneNondeterminism(pos, r.clone()))
                    }
                },
            },
        }
    }

    /// Whether a Kleene closure may be taken over a graph with this epsilon: not
    /// over the neutral epsilon.
    pub fn epsilon_kleene(pos: V, eps: &Option<P>) -> (r: Result<&Option<P>, CompErr>)
        ensures
            epsilon_view(*eps) == Some(neutral_view()) ==> (r matches Err(
                CompErr::KleeneNondeterminism(p, e),
            ) && p == pos && e@ == neutral_view()),
            epsilon_view(*eps) != Some(neutral_view()) ==> r.is_ok() && *r.unwrap() == *eps,
    {
        if let Some(e) = eps {
            if is_neutral(e) {
                return Err(CompErr::KleeneNondeterminism(pos, e.clone()));
            }
        }
        Ok(eps)
    }

    /// The union of `self` and `rhs`; see `union_graph` and `epsilon_union_view`.
    pub fn union(self, rhs: G, pos: V) -> (r: Result<G, CompErr>)
        requires
            self@.wf(),
            rhs@.wf(),
        ensures
            match epsilon_union_view(self@.epsilon, rhs@.epsilon) {
                Ok(eps) => r.is_ok() && r.unwrap()@ == union_graph(self@, rhs@, eps)
                    && r.unwrap()@.wf(),
                Err(b) => r matches Err(CompErr::KleeneNondeterminism(p, e)) && p == pos && e@
                    == b,
            },
    {
        let mut lhs = self;
        let eps = match G::epsilon_union(pos, &lhs.epsilon, &rhs.epsilon) {
            Ok(eps) => clone_epsilon(eps),
            Err(err) => {
                return Err(err);
            },
        };
        let k = lhs.pool.len();
        let G { pool: rpool, incoming: mut rin, outgoing: mut rout, epsilon: _ } = rhs;
        absorb(&mut lhs.pool, rpool);
        let total = lhs.pool.len();
        proof {
            assert forall|i: int| 0 <= i < rin@.len() implies (#[trigger] rin@[i]).1 + k
                <= usize::MAX by {
                assert(edges_view(rin@)[i].1 < rhs@.nodes.len());
            }
            assert forall|i: int| 0 <= i < rout@.len() implies (#[trigger] rout@[i]).0 + k
                <= usize::MAX by {
                assert(finals_view(rout@)[i].0 < rhs@.nodes.len());
            }
        }
        shift_edge_targets(&mut rin, k);
        shift_final_states(&mut rout, k);
        let ghost lin = edges_view(lhs.incoming@);
        let ghost lout = finals_view(lhs.outgoing@);
        lhs.incoming.append(&mut rin);
        lhs.outgoing.append(&mut rout);
        lhs.epsilon = eps;
        proof {
            assert(lhs@.incoming =~= lin + shift_edges(rhs@.incoming, k as nat));
            assert(lhs@.outgoing =~= lout + shift_finals(rhs@.outgoing, k as nat));
            lemma_union_wf(self@, rhs@, epsilon_view(lhs.epsilon));
        }
        Ok(lhs)
    }

    /// The concatenation of `self` and `rhs`; see `concat_graph`.
    pub fn concat(self, rhs: G) -> (r: G)
        requires
            self@.wf(),
            rhs@.wf(),
        ensures
            r@ == concat_graph(self@, rhs@),
            r@.wf(),
    {
        let mut lhs = self;
        if lhs.is_empty() {
            return lhs;
        }
        if rhs.is_empty() {
            return rhs;
        }
        let k = lhs.pool.len();
        let G { pool: rpool, incoming: mut rin, outgoing: mut rout, epsilon: reps } = rhs;
        absorb(&mut lhs.pool, rpool);
        let total = lhs.pool.len();
        proof {
            assert forall|i: int| 0 <= i < rin@.len() implies (#[trigger] rin@[i]).1 + k
                <= usize::MAX by {
                assert(edges_view(rin@)[i].1 < rhs@.nodes.len());
            }
            assert forall|i: int| 0 <= i < rout@.len() implies (#[trigger] rout@[i]).0 + k
                <= usize::MAX by {
                assert(finals_view(rout@)[i].0 < rhs@.nodes.len());
            }
            assert forall|i: int| 0 <= i < lhs.outgoing@.len() implies (
            #[trigger] lhs.outgoing@[i]).0 < lhs.pool@.len() by {
                assert(finals_view(lhs.outgoing@)[i].0 < self@.nodes.len());
            }
        }
        shift_edge_targets(&mut rin, k);
        shift_final_states(&mut rout, k);
        proof {
            lemma_connect_append(
                self@.nodes,
                shift_nodes(rhs@.nodes, k as nat),
                self@.outgoing,
                edges_view(rin@),
            );
        }
        connect_all(&mut lhs.pool, &lhs.outgoing, &rin);
        if let Some(le) = &lhs.epsilon {
            push_left_acted(&mut lhs.incoming, le, &rin);
        }
        if let Some(re) = &reps {
            push_right_acted(&mut rout, &lhs.outgoing, re);
        }
        let eps = match (&lhs.epsilon, &reps) {
            (Some(le), Some(re)) => Some(le.multiply(re)),
            _ => None,
        };
        lhs.outgoing = rout;
        lhs.epsilon = eps;
        proof {
            lemma_concat_wf(self@, rhs@);
        }
        lhs
    }

    /// The graph that also accepts the empty input, under the neutral epsilon.
    /// There is none if the graph accepts the empty input under the neutral
    /// epsilon already.
    pub fn kleene_optional(self, pos: V) -> (r: Result<G, CompErr>)
        ensures
            self@.epsilon == Some(neutral_view()) ==> (r matches Err(
                CompErr::KleeneNondeterminism(p, e),
            ) && p == pos && e@ == neutral_view()),
            self@.epsilon != Some(neutral_view()) ==> r.is_ok() && r.unwrap()@ == (GView {
                epsilon: Some(neutral_view()),
                ..self@
            }),
            self@.wf() && r.is_ok() ==> r.unwrap()@.wf(),
    {
        let mut g = self;
        match G::epsilon_kleene(pos, &g.epsilon) {
            Ok(_) => {
                g.epsilon = Some(P::neutral());
                Ok(g)
            },
            Err(err) => Err(err),
        }
    }

    /// The Kleene star: every accepting state is connected back to every way
    /// in, and the empty input is accepted under the neutral epsilon. There is
    /// none for a graph that accepts the empty input under the neutral epsilon
    /// already.
    pub fn kleene(self, pos: V) -> (r: Result<G, CompErr>)
        requires
            self@.wf(),
        ensures
            self@.epsilon == Some(neutral_view()) ==> (r matches Err(
                CompErr::KleeneNondeterminism(p, e),
            ) && p == pos && e@ == neutral_view()),
            self@.epsilon != Some(neutral_view()) ==> r.is_ok() && r.unwrap()@ == (GView {
                epsilon: Some(neutral_view()),
                ..loop_graph(self@)
            }),
            r.is_ok() ==> r.unwrap()@.wf(),
    {
        let mut g = self;
        proof {
            assert forall|i: int| 0 <= i < g.outgoing@.len() implies (#[trigger] g.outgoing@[i]).0
                < g.pool@.len() by {
                assert(finals_view(g.outgoing@)[i].0 < self@.nodes.len());
            }
            lemma_loop_wf(self@);
        }
        connect_all(&mut g.pool, &g.outgoing, &g.incoming);
        g.kleene_optional(pos)
    }

    /// The Kleene plus: every accepting state is connected back to every way
    /// in, and the epsilon stays as it is. There is none for a graph whose
    /// epsilon is the neutral one.
    pub fn kleene_semigroup(self, pos: V) -> (r: Result<G, CompErr>)
        requires
            self@.wf(),
        ensures
            self@.epsilon == Some(neutral_view()) ==> (r matches Err(
                CompErr::KleeneNondeterminism(p, e),
            ) && p == pos && e@ == neutral_view()),
            self@.epsilon != Some(neutral_view()) ==> r.is_ok() && r.unwrap()@ == loop_graph(
                self@,
            ) && r.unwrap()@.wf(),
    {
        let mut g = self;
        proof {
            assert forall|i: int| 0 <= i < g.outgoing@.len() implies (#[trigger] g.outgoing@[i]).0
                < g.pool@.len() by {
                assert(finals_view(g.outgoing@)[i].0 < self@.nodes.len());
            }
            lemma_loop_wf(self@);
        }
        connect_all(&mut g.pool, &g.outgoing, &g.incoming);
        let bad = match &g.epsilon {
            Some(eps) => {
                if is_neutral(eps) {
                    Some(eps.clone())
                } else {
                    None
                }
            },
            None => None,
        };
        match bad {
            Some(eps) => Err(CompErr::KleeneNondeterminism(pos, eps)),
            None => Ok(g),
        }
    }

    /// The graph with `edge` multiplied behind every final partial edge and
    /// behind the epsilon.
    pub fn right_action_on_graph(self, edge: &P) -> (r: G)
        ensures
            r@ == (GView {
                outgoing: right_act_finals(self@.outgoing, edge@),
                epsilon: match self@.epsilon {
                    Some(eps) => Some(multiply_view(eps, edge@)),
                    None => None,
                },
                ..self@
            }),
            self@.wf() ==> r@.wf(),
    {
        let mut g = self;
        let mut out: Vec<(NodeId, P)> = Vec::new();
        assert(finals_view(out@) =~= Seq::empty());
        push_right_acted(&mut out, &g.outgoing, edge);
        assert(finals_view(out@) =~= right_act_finals(self@.outgoing, edge@));
        g.outgoing = out;
        g.epsilon = match &g.epsilon {
            Some(eps) => Some(eps.multiply(edge)),
            None => None,
        };
        proof {
            if self@.wf() {
                assert forall|i: int| 0 <= i < g@.outgoing.len() implies (#[trigger] g@.outgoing[i]).0
                    < g@.nodes.len() by {
                    assert(self@.outgoing[i].0 < self@.nodes.len());
                }
                assert forall|i: int, j: int| 0 <= i < j < g@.outgoing.len() implies (
                #[trigger] g@.outgoing[i]).0 != (#[trigger] g@.outgoing[j]).0 by {
                    assert(self@.outgoing[i].0 != self@.outgoing[j].0);
                }
            }
        }
        g
    }
}

impl P {
    /// The graph with `self` multiplied in front of every incoming edge and in
    /// front of the epsilon.
    pub fn left_action_on_graph(&self, graph: G) -> (r: G)
        ensures
            r@ == (GView {
                incoming: left_act_edges(self@, graph@.incoming),
                epsilon: match graph@.epsilon {
                    Some(eps) => Some(multiply_view(self@, eps)),
                    None => None,
                },
                ..graph@
            }),
            graph@.wf() ==> r@.wf(),
    {
        let mut g = graph;
        let mut inc: Vec<(E, NodeId)> = Vec::new();
        assert(edges_view(inc@) =~= Seq::empty());
        push_left_acted(&mut inc, self, &g.incoming);
        assert(edges_view(inc@) =~= left_act_edges(self@, graph@.incoming));
        g.incoming = inc;
        g.epsilon = match &g.epsilon {
            Some(eps) => Some(self.multiply(eps)),
            None => None,
        };
        proof {
            if graph@.wf() {
                assert forall|i: int| 0 <= i < g@.incoming.len() implies (#[trigger] g@.incoming[i]).1
                    < g@.nodes.len() && g@.incoming[i].0.from_exclusive
                    < g@.incoming[i].0.to_inclusive by {
                    assert(graph@.incoming[i].1 < graph@.nodes.len());
                }
            }
        }
        g
    }
}


/// Connecting to no entries changes nothing.
pub proof fn lemma_connect_nothing(nodes: Seq<NView>, finals: Seq<(NodeId, PView)>)
    requires
        forall|i: int| 0 <= i < finals.len() ==> (#[trigger] finals[i]).0 < nodes.len(),
    ensures
        connect(nodes, finals, Seq::empty()) == nodes,
    decreases finals.len(),
{
    if finals.len() > 0 {
        lemma_connect_nothing(nodes, finals.drop_last());
        let v = finals.last().0 as int;
        assert(finals[finals.len() - 1].0 < nodes.len());
        assert(left_act_edges(finals.last().1, Seq::empty()) =~= Seq::empty());
        assert(nodes[v].outgoing + Seq::<(EView, NodeId)>::empty() =~= nodes[v].outgoing);
        assert(connect(nodes, finals, Seq::empty()) =~= nodes);
    }
}

/// The graph of the neutral epsilon is the identity of concatenation:
/// concatenating it to a well-formed graph, on either side, gives that graph
/// back, node for node and edge for edge.
pub proof fn lemma_concat_identity(g: GView)
    requires
        g.wf(),
    ensures
        concat_graph(g, epsilon_graph(neutral_view())) == g,
        concat_graph(epsilon_graph(neutral_view()), g) == g,
{
    let e = epsilon_graph(neutral_view());
    // on the right
    if !g.is_empty() {
        let r = concat_graph(g, e);
        let k = g.nodes.len();
        assert(shift_edges(e.incoming, k) =~= Seq::empty());
        lemma_connect_nothing(g.nodes, g.outgoing);
        assert(shift_nodes(e.nodes, k) =~= Seq::empty());
        assert(r.nodes =~= g.nodes);
        match g.epsilon {
            Some(le) => {
                assert(left_act_edges(le, Seq::empty()) =~= Seq::empty());
                crate::p::lemma_multiply_neutral(le);
            },
            None => {},
        }
        assert(r.incoming =~= g.incoming);
        assert(shift_finals(e.outgoing, k) =~= Seq::empty());
        assert forall|i: int| 0 <= i < g.outgoing.len() implies right_act_finals(
            g.outgoing,
            neutral_view(),
        )[i] == g.outgoing[i] by {
            crate::p::lemma_multiply_neutral(g.outgoing[i].1);
        }
        assert(r.outgoing =~= g.outgoing);
        assert(r == g);
    }
    // on the left
    if !g.is_empty() {
        let l = concat_graph(e, g);
        assert(connect(e.nodes, e.outgoing, shift_edges(g.incoming, 0)) =~= Seq::empty());
        assert forall|x: int| 0 <= x < g.nodes.len() implies shift_nodes(g.nodes, 0)[x]
            == g.nodes[x] by {
            assert(shift_edges(g.nodes[x].outgoing, 0) =~= g.nodes[x].outgoing);
        }
        assert(l.nodes =~= g.nodes);
        assert(shift_edges(g.incoming, 0) =~= g.incoming);
        assert forall|i: int| 0 <= i < g.incoming.len() implies left_act_edges(
            neutral_view(),
            g.incoming,
        )[i] == g.incoming[i] by {
            crate::p::lemma_multiply_neutral(g.incoming[i].0.partial);
        }
        assert(l.incoming =~= g.incoming);
        assert(shift_finals(g.outgoing, 0) =~= g.outgoing);
        assert(right_act_finals(e.outgoing, neutral_view()) =~= Seq::empty());
        match g.epsilon {
            Some(re) => {
                crate::p::lemma_multiply_neutral(re);
                assert(right_act_finals(e.outgoing, re) =~= Seq::empty());
            },
            None => {},
        }
        assert(l.outgoing =~= g.outgoing);
        assert(l == g);
    }
}

/// The epsilon of a union does not depend on the order of the two graphs:
/// either order has a union or neither has, and the unions have the same
/// epsilon.
pub proof fn lemma_epsilon_union_commutative(l: Option<PView>, r: Option<PView>)
    ensures
        epsilon_union_view(l, r).is_ok() == epsilon_union_view(r, l).is_ok(),
        epsilon_union_view(l, r).is_ok() ==> epsilon_union_view(l, r) == epsilon_union_view(r, l),
{
}

} // verus!
