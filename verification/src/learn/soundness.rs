use crate::collect::{has_edge, lemma_reachable_self, lemma_reachable_step, reachable};
use crate::e::EView;
use crate::evaluation_laws::{lemma_evaluation_sound, lemma_final_of, lemma_order_len, plain_input};
use crate::language::{accepts, follow, run_result, Run};
use crate::p::W;
use crate::external_functions::{alphabet_of, learnt};
use crate::g::GView;
use crate::int_embedding::{
    informant_symbols, lemma_first_occurrences, lemma_first_occurrences_distinct,
    lemma_informant_symbols, I,
};
use crate::int_seq::IntSeq;
use crate::int_seq::{symbols_of, A, REFLECT};
use crate::learn::ostia_compress::{
    accepted, all_text, compiled, compiled_edge, compiled_finals, edge_of, edges_are_text,
    lands, lemma_lands_push, lemma_out_by_path, path_out, ptt_out, state_edges, state_is_text,
    states_wf, target_of, State, conflict_at, inputs_known, lemma_taught_sample, sample_output,
    sample_word, taught, Inferred,
};
use crate::n::NodeId;
use crate::p::PView;
use crate::ranged_evaluation::{
    best_final, column, evaluate, lookup, next_column_upto, path_output, reflect, step, step_all,
    strip_reflect, NodeView,
};
use crate::ranged_graph::{
    full_sigma_covered, lemma_range_index, range_index, RGView, TransitionView,
};
use crate::ranged_optimisation::{
    activation_order, active, breakpoints, covers, final_of, index_table, insert_by_from,
    is_ranged_of, lemma_activation_order_bound, lemma_breakpoints, lemma_table_covered, ranged,
    table, transition_of,
};
use crate::v::V;
use vstd::prelude::*;
use vstd::utf8::{decode_utf8, encode_scalar, encode_utf8, valid_utf8};

verus! {

/// Symbols that the same edges accept have the same active transitions.
pub proof fn lemma_active_same(
    edges: Seq<(EView, NodeId)>,
    index_of: Seq<usize>,
    order: Seq<usize>,
    x: A,
    y: A,
)
    requires
        forall|p: int|
            0 <= p < order.len() ==> covers(edges[(#[trigger] order[p]) as int].0, x) == covers(
                edges[order[p] as int].0,
                y,
            ),
    ensures
        active(edges, index_of, order, x) == active(edges, index_of, order, y),
    decreases order.len(),
{
    if order.len() > 0 {
        let front = order.drop_last();
        assert forall|p: int| 0 <= p < front.len() implies covers(
            edges[(#[trigger] front[p]) as int].0,
            x,
        ) == covers(edges[front[p] as int].0, y) by {
            assert(front[p] == order[p]);
        }
        lemma_active_same(edges, index_of, front, x, y);
        assert(order[order.len() - 1] == order.last());
    }
}

/// The range of the table that covers a symbol holds the transitions of
/// exactly the edges that accept the symbol, in the order in which their
/// intervals begin.
pub proof fn lemma_table_lookup(edges: Seq<(EView, NodeId)>, index_of: Seq<usize>, x: A)
    requires
        forall|i: int|
            0 <= i < edges.len() ==> (#[trigger] edges[i]).0.from_exclusive < edges[i].0.to_inclusive,
        x > REFLECT,
    ensures
        full_sigma_covered(table(edges, index_of)),
        0 <= range_index(table(edges, index_of), x) < table(edges, index_of).len(),
        table(edges, index_of)[range_index(table(edges, index_of), x)].edges == active(
            edges,
            index_of,
            activation_order(edges, edges.len()),
            x,
        ),
{
    let t = table(edges, index_of);
    let points = breakpoints(edges, edges.len());
    let order = activation_order(edges, edges.len());
    lemma_table_covered(edges, index_of);
    lemma_breakpoints(edges, edges.len());
    lemma_range_index(t, x);
    lemma_activation_order_bound(edges, edges.len());
    let r = range_index(t, x);
    let b = points[r];
    assert(t[r].input == b);
    assert(b >= x);
    assert forall|p: int| 0 <= p < order.len() implies covers(
        edges[(#[trigger] order[p]) as int].0,
        x,
    ) == covers(edges[order[p] as int].0, b) by {
        let k = order[p] as int;
        let e = edges[k].0;
        // the end of the edge is a breakpoint
        assert(points.contains(e.to_inclusive));
        let at = choose|i: int| 0 <= i < points.len() && points[i] == e.to_inclusive;
        if x <= e.to_inclusive {
            // the covering range is the first that reaches the symbol
            if at < r {
                assert(t[at].input < x);
            }
            assert(b <= e.to_inclusive);
        }
        if e.from_exclusive >= x {
            assert(e.from_exclusive > REFLECT);
            assert(points.contains(e.from_exclusive));
            let af = choose|i: int| 0 <= i < points.len() && points[i] == e.from_exclusive;
            if af < r {
                assert(t[af].input < x);
            }
            assert(b <= e.from_exclusive);
        }
    }
    lemma_active_same(edges, index_of, order, x, b);
}

/// Putting an index into a list of indices without repetitions that does not
/// hold it gives a list without repetitions that holds it and what the list
/// held.
pub proof fn lemma_insert_by_from_perm(edges: Seq<(EView, NodeId)>, order: Seq<usize>, k: usize)
    requires
        order.no_duplicates(),
        !order.contains(k),
    ensures
        insert_by_from(edges, order, k).no_duplicates(),
        insert_by_from(edges, order, k).contains(k),
        forall|x: usize| order.contains(x) ==> insert_by_from(edges, order, k).contains(x),
        forall|x: usize| insert_by_from(edges, order, k).contains(x) ==> x == k || order.contains(x),
    decreases order.len(),
{
    let r = insert_by_from(edges, order, k);
    if order.len() == 0 {
        assert(r[0] == k);
    } else if edges[order.last() as int].0.from_exclusive <= edges[k as int].0.from_exclusive {
        assert(r[order.len() as int] == k);
        assert forall|x: usize| order.contains(x) implies r.contains(x) by {
            let i = choose|i: int| 0 <= i < order.len() && order[i] == x;
            assert(r[i] == x);
        }
        assert forall|i: int, j: int| 0 <= i < r.len() && 0 <= j < r.len() && i != j implies r[i]
            != r[j] by {
            if i < order.len() && j < order.len() {
                assert(order[i] != order[j]);
            } else if i < order.len() {
                assert(order.contains(order[i]));
            } else {
                assert(order.contains(order[j]));
            }
        }
        assert forall|x: usize| r.contains(x) implies x == k || order.contains(x) by {
            let i = choose|i: int| 0 <= i < r.len() && r[i] == x;
            if i < order.len() {
                assert(order[i] == x);
            }
        }
    } else {
        let front = order.drop_last();
        let last = order.last();
        assert(front.no_duplicates()) by {
            assert forall|i: int, j: int|
                0 <= i < front.len() && 0 <= j < front.len() && i != j implies front[i]
                != front[j] by {
                assert(order[i] != order[j]);
            }
        }
        assert(!front.contains(k)) by {
            if front.contains(k) {
                let i = choose|i: int| 0 <= i < front.len() && front[i] == k;
                assert(order[i] == k);
            }
        }
        assert(!front.contains(last)) by {
            if front.contains(last) {
                let i = choose|i: int| 0 <= i < front.len() && front[i] == last;
                assert(order[i] == order[order.len() - 1]);
            }
        }
        lemma_insert_by_from_perm(edges, front, k);
        let inner = insert_by_from(edges, front, k);
        assert(last != k) by {
            assert(order[order.len() - 1] == last);
        }
        assert(!inner.contains(last));
        assert forall|i: int, j: int| 0 <= i < r.len() && 0 <= j < r.len() && i != j implies r[i]
            != r[j] by {
            if i < inner.len() && j < inner.len() {
                assert(inner[i] != inner[j]);
            } else if i < inner.len() {
                assert(inner.contains(inner[i]));
            } else {
                assert(inner.contains(inner[j]));
            }
        }
        let ak = choose|a: int| 0 <= a < inner.len() && inner[a] == k;
        assert(r[ak] == k);
        assert forall|x: usize| order.contains(x) implies r.contains(x) by {
            let i = choose|i: int| 0 <= i < order.len() && order[i] == x;
            if i < front.len() {
                assert(front[i] == x);
                assert(front.contains(x));
                let a = choose|a: int| 0 <= a < inner.len() && inner[a] == x;
                assert(r[a] == x);
            } else {
                assert(r[inner.len() as int] == x);
            }
        }
        assert forall|x: usize| r.contains(x) implies x == k || order.contains(x) by {
            let i = choose|i: int| 0 <= i < r.len() && r[i] == x;
            if i < inner.len() {
                assert(inner.contains(inner[i]));
                if front.contains(x) {
                    let a = choose|a: int| 0 <= a < front.len() && front[a] == x;
                    assert(order[a] == x);
                }
            } else {
                assert(order[order.len() - 1] == x);
            }
        }
    }
}

/// The order in which the intervals of the first `n` edges begin holds every
/// one of these edges once.
pub proof fn lemma_activation_order_perm(edges: Seq<(EView, NodeId)>, n: nat)
    requires
        n <= usize::MAX,
    ensures
        activation_order(edges, n).no_duplicates(),
        forall|k: usize| activation_order(edges, n).contains(k) <==> k < n,
    decreases n,
{
    if n > 0 {
        lemma_activation_order_perm(edges, (n - 1) as nat);
        let before = activation_order(edges, (n - 1) as nat);
        let k = (n - 1) as usize;
        assert(!before.contains(k));
        lemma_insert_by_from_perm(edges, before, k);
        let all = activation_order(edges, n);
        assert forall|x: usize| all.contains(x) <==> x < n by {
            if all.contains(x) {
                assert(x == k || before.contains(x));
            }
            if x < n {
                if x != k {
                    assert(before.contains(x));
                }
            }
        }
    } else {
        let none = activation_order(edges, 0);
        assert(none.len() == 0);
        assert forall|x: usize| none.contains(x) <==> x < n by {
            if none.contains(x) {
                let i = choose|i: int| 0 <= i < none.len() && none[i] == x;
            }
        }
    }
}

/// Where one edge alone accepts a symbol, the active transitions are the
/// transition of that edge.
pub proof fn lemma_active_single(
    edges: Seq<(EView, NodeId)>,
    index_of: Seq<usize>,
    order: Seq<usize>,
    x: A,
    k0: usize,
)
    requires
        order.no_duplicates(),
        forall|p: int|
            0 <= p < order.len() ==> (covers(edges[(#[trigger] order[p]) as int].0, x) <==> order[p]
                == k0),
    ensures
        order.contains(k0) ==> active(edges, index_of, order, x) == seq![
            transition_of(edges[k0 as int], index_of),
        ],
        !order.contains(k0) ==> active(edges, index_of, order, x) == Seq::<TransitionView>::empty(),
    decreases order.len(),
{
    if order.len() > 0 {
        let front = order.drop_last();
        let last = order.last();
        assert(front.no_duplicates()) by {
            assert forall|i: int, j: int|
                0 <= i < front.len() && 0 <= j < front.len() && i != j implies front[i]
                != front[j] by {
                assert(order[i] != order[j]);
            }
        }
        assert forall|p: int| 0 <= p < front.len() implies (covers(
            edges[(#[trigger] front[p]) as int].0,
            x,
        ) <==> front[p] == k0) by {
            assert(front[p] == order[p]);
        }
        lemma_active_single(edges, index_of, front, x, k0);
        assert(order[order.len() - 1] == last);
        if last == k0 {
            assert(!front.contains(k0)) by {
                if front.contains(k0) {
                    let i = choose|i: int| 0 <= i < front.len() && front[i] == k0;
                    assert(order[i] == order[order.len() - 1]);
                }
            }
            assert(order.contains(k0));
            assert(active(edges, index_of, order, x) =~= seq![
                transition_of(edges[k0 as int], index_of),
            ]);
        } else {
            if order.contains(k0) {
                let i = choose|i: int| 0 <= i < order.len() && order[i] == k0;
                assert(front[i] == k0);
                assert(front.contains(k0));
            }
            if front.contains(k0) {
                let i = choose|i: int| 0 <= i < front.len() && front[i] == k0;
                assert(order[i] == k0);
            }
        }
    }
}


/// Every edge of a state reads a symbol of the alphabet, for which the state
/// has an edge.
pub proof fn lemma_state_edges_symbols(state: State, alphabet: Seq<A>, n: nat, k: int) -> (c: int)
    requires
        n <= state.transitions@.len(),
        n <= alphabet.len(),
        0 <= k < state_edges(state, alphabet, n).len(),
    ensures
        0 <= c < n,
        state.transitions@[c].is_some(),
        state_edges(state, alphabet, n)[k] == compiled_edge(
            alphabet[c],
            state.transitions@[c].unwrap(),
        ),
    decreases n,
{
    let before = state_edges(state, alphabet, (n - 1) as nat);
    if k < before.len() {
        let c = lemma_state_edges_symbols(state, alphabet, (n - 1) as nat, k);
        match state.transitions@[n - 1] {
            Some(e) => {
                assert(state_edges(state, alphabet, n)[k] == before[k]);
            },
            None => {},
        }
        c
    } else {
        n - 1
    }
}

/// The edge of a state for a symbol of the alphabet is the one edge of the
/// state that accepts the symbol.
pub proof fn lemma_state_edges_covering(state: State, alphabet: Seq<A>, n: nat, c0: int) -> (k0:
    int)
    requires
        n <= state.transitions@.len(),
        n <= alphabet.len(),
        alphabet.no_duplicates(),
        forall|d: int| 0 <= d < alphabet.len() ==> #[trigger] alphabet[d] > REFLECT,
        0 <= c0 < n,
        state.transitions@[c0].is_some(),
    ensures
        0 <= k0 < state_edges(state, alphabet, n).len(),
        state_edges(state, alphabet, n)[k0] == compiled_edge(
            alphabet[c0],
            state.transitions@[c0].unwrap(),
        ),
        forall|k: int|
            0 <= k < state_edges(state, alphabet, n).len() ==> (covers(
                (#[trigger] state_edges(state, alphabet, n)[k]).0,
                alphabet[c0],
            ) <==> k == k0),
    decreases n,
{
    let edges = state_edges(state, alphabet, n);
    let before = state_edges(state, alphabet, (n - 1) as nat);
    let x = alphabet[c0];
    if c0 == n - 1 {
        let k0 = before.len() as int;
        assert forall|k: int| 0 <= k < edges.len() implies (covers((#[trigger] edges[k]).0, x)
            <==> k == k0) by {
            if k < before.len() {
                let c = lemma_state_edges_symbols(state, alphabet, (n - 1) as nat, k);
                assert(edges[k] == before[k]);
                assert(alphabet[c] != alphabet[c0]);
                assert(alphabet[c] > REFLECT);
            }
        }
        k0
    } else {
        let k0 = lemma_state_edges_covering(state, alphabet, (n - 1) as nat, c0);
        assert forall|k: int| 0 <= k < edges.len() implies (covers((#[trigger] edges[k]).0, x)
            <==> k == k0) by {
            if k < before.len() {
                assert(edges[k] == before[k]);
            } else {
                assert(alphabet[n - 1] != alphabet[c0]);
                assert(alphabet[n - 1] > REFLECT);
            }
        }
        assert(edges[k0] == before[k0]);
        k0
    }
}

/// The partial edge under which a state accepts in the compiled graph.
pub open spec fn compiled_final(state: State) -> Option<PView> {
    match accepted(state.output) {
        Some(o) => Some(PView { weight: 0, output: decode_utf8(o) }),
        None => None,
    }
}

/// In the compiled graph a state accepts as it accepts in the transducer, if
/// it is one of the states that the transducer is left with.
pub proof fn lemma_compiled_final_of(states: Seq<State>, red: Seq<usize>, k: nat, v: usize)
    requires
        k <= red.len(),
    ensures
        final_of(compiled_finals(states, red, k), v) == if exists|x: int|
            0 <= x < k && red[x] == v {
            compiled_final(states[v as int])
        } else {
            None
        },
    decreases k,
{
    if k > 0 {
        lemma_compiled_final_of(states, red, (k - 1) as nat, v);
        let before = compiled_finals(states, red, (k - 1) as nat);
        if exists|x: int| 0 <= x < k - 1 && red[x] == v {
            let x = choose|x: int| 0 <= x < k - 1 && red[x] == v;
            assert(0 <= x < k && red[x] == v);
        }
        match accepted(states[red[k - 1] as int].output) {
            Some(o) => {
                let entry = (red[k - 1], PView { weight: 0, output: decode_utf8(o) });
                assert(before.push(entry).drop_last() =~= before);
                assert(before.push(entry).last() == entry);
                if red[k - 1] == v {
                    assert(0 <= k - 1 < k && red[k - 1] == v);
                } else {
                    if exists|x: int| 0 <= x < k && red[x] == v {
                        let x = choose|x: int| 0 <= x < k && red[x] == v;
                        assert(0 <= x < k - 1 && red[x] == v);
                    }
                }
            },
            None => {
                if red[k - 1] == v {
                    assert(0 <= k - 1 < k && red[k - 1] == v);
                } else {
                    if exists|x: int| 0 <= x < k && red[x] == v {
                        let x = choose|x: int| 0 <= x < k && red[x] == v;
                        assert(0 <= x < k - 1 && red[x] == v);
                    }
                }
            },
        }
    }
}

/// Whether no byte is 0.
pub open spec fn no_nul(bytes: Seq<u8>) -> bool {
    forall|i: int| 0 <= i < bytes.len() ==> #[trigger] bytes[i] != 0
}

/// A string without a zero byte holds no reflection marker.
pub proof fn lemma_no_nul(bytes: Seq<u8>)
    requires
        valid_utf8(bytes),
        no_nul(bytes),
    ensures
        forall|i: int|
            0 <= i < symbols_of(decode_utf8(bytes)).len() ==> #[trigger] symbols_of(
                decode_utf8(bytes),
            )[i] != REFLECT,
    decreases bytes.len(),
{
    if bytes.len() > 0 {
        let rest = vstd::utf8::pop_first_scalar(bytes);
        assert forall|i: int| 0 <= i < rest.len() implies #[trigger] rest[i] != 0 by {
            assert(rest[i] == bytes[i + vstd::utf8::length_of_first_scalar(bytes)]);
        }
        lemma_no_nul(rest);
        let first = vstd::utf8::decode_first_scalar(bytes);
        let b0 = bytes[0];
        assert(b0 != 0);
        if vstd::utf8::is_leading_byte_width_1(b0) {
            assert((b0 & 0x7F) as u32 != 0) by (bit_vector)
                requires
                    b0 != 0,
                    b0 <= 0x7f,
            ;
        }
        crate::utf8::lemma_first_scalar_is_scalar(bytes);
        assert((first as char) as u32 == first);
        let all = symbols_of(decode_utf8(bytes));
        assert forall|i: int| 0 <= i < all.len() implies #[trigger] all[i] != REFLECT by {
            if i > 0 {
                assert(all[i] == symbols_of(decode_utf8(rest))[i - 1]);
            }
        }
    }
}

/// An output without reflection markers is given as it is.
pub proof fn lemma_reflect_nothing(output: Seq<A>, symbol: A)
    requires
        forall|i: int| 0 <= i < output.len() ==> #[trigger] output[i] != REFLECT,
    ensures
        reflect(output, symbol) == output,
        strip_reflect(output) == output,
    decreases output.len(),
{
    assert(reflect(output, symbol) =~= output);
    if output.len() > 0 {
        let front = output.drop_last();
        assert forall|i: int| 0 <= i < front.len() implies #[trigger] front[i] != REFLECT by {
            assert(front[i] == output[i]);
        }
        lemma_reflect_nothing(front, symbol);
        assert(output[output.len() - 1] != REFLECT);
        assert(front.push(output.last()) =~= output);
    }
}

/// The symbols of two strings, one after the other, are the symbols of the
/// strings joined.
pub proof fn lemma_symbols_concat(a: Seq<u8>, b: Seq<u8>)
    requires
        valid_utf8(a),
        valid_utf8(b),
    ensures
        valid_utf8(a + b),
        symbols_of(decode_utf8(a + b)) == symbols_of(decode_utf8(a)) + symbols_of(decode_utf8(b)),
{
    crate::utf8::lemma_decode_utf8_concat(a, b);
    assert(symbols_of(decode_utf8(a) + decode_utf8(b)) =~= symbols_of(decode_utf8(a))
        + symbols_of(decode_utf8(b)));
}


/// Whether `red` lists states of the transducer that begin with the root and
/// hold, with every state, the states to which its edges lead, and whether
/// the outputs of these states are strings over an alphabet without
/// repetitions and without the reflection marker.
pub open spec fn compiled_context(states: Seq<State>, alphabet: Seq<A>, red: Seq<usize>) -> bool {
    &&& states_wf(states, alphabet.len())
    &&& states.len() < usize::MAX
    &&& alphabet.len() <= usize::MAX
    &&& alphabet.no_duplicates()
    &&& forall|d: int| 0 <= d < alphabet.len() ==> #[trigger] alphabet[d] > REFLECT
    &&& red.len() > 0
    &&& red[0] == 0
    &&& forall|k: int| 0 <= k < red.len() ==> (#[trigger] red[k]) < states.len()
    &&& forall|k: int, d: int|
        0 <= k < red.len() && 0 <= d < alphabet.len() ==> match #[trigger] states[red[k] as int].transitions@[d] {
            Some(e) => red.contains(target_of(e.target) as usize),
            None => true,
        }
    &&& all_text(states, red)
}

/// Whether `order` lists, each once, the nodes of the graph that can be
/// reached from a way into it.
pub open spec fn reached_order(g: GView, order: Seq<NodeId>) -> bool {
    &&& order.no_duplicates()
    &&& order.len() < usize::MAX
    &&& forall|k: NodeId|
        order.contains(k) <==> k < g.nodes.len() && exists|i: int|
            0 <= i < g.incoming.len() && #[trigger] reachable(g.nodes, g.incoming[i].1, k)
}

/// The symbols of a word that is given by the indices of its symbols.
pub open spec fn word_symbols(alphabet: Seq<A>, word: Seq<I>) -> Seq<A> {
    word.map_values(|c: I| alphabet[c as int])
}

/// The state of the ranged graph in which the transducer is after a prefix of
/// the word that ends in the state `v`: the initial state after the empty
/// prefix, and the state of the node `v` after any other.
pub open spec fn state_after(order: Seq<NodeId>, nodes: nat, k: nat, v: int) -> usize {
    if k == 0 {
        0
    } else {
        index_table(order, nodes)[v]
    }
}

/// The edges of the state of the ranged graph for a state of the transducer
/// that it is left with are the compiled edges of that state.
pub proof fn lemma_state_table(
    states: Seq<State>,
    alphabet: Seq<A>,
    red: Seq<usize>,
    pos: V,
    order: Seq<NodeId>,
    k: nat,
    v: int,
)
    requires
        compiled_context(states, alphabet, red),
        reached_order(compiled(states, alphabet, red, pos), order),
        0 <= v < states.len(),
        red.contains(v as usize),
        k == 0 ==> v == 0,
        k > 0 ==> order.contains(v as usize),
    ensures
        state_after(order, states.len(), k, v) < order.len() + 1,
        k > 0 ==> state_after(order, states.len(), k, v) >= 1,
        ranged(compiled(states, alphabet, red, pos), order).graph[state_after(
            order,
            states.len(),
            k,
            v,
        ) as int] == table(
            state_edges(states[v], alphabet, alphabet.len()),
            index_table(order, states.len()),
        ),
        ranged(compiled(states, alphabet, red, pos), order).accepting[state_after(
            order,
            states.len(),
            k,
            v,
        ) as int] == compiled_final(states[v]),
{
    let g = compiled(states, alphabet, red, pos);
    let rg = ranged(g, order);
    if k > 0 {
        let i = order.index_of(v as usize);
        assert(order[i] == v as usize);
        assert(index_table(order, states.len())[v] == (i + 1) as usize);
        assert(rg.graph[i + 1] == table(g.nodes[order[i] as int].outgoing, index_table(order, states.len())));
        lemma_compiled_final_of(states, red, red.len(), v as usize);
        let x = choose|x: int| 0 <= x < red.len() && red[x] == v as usize;
        assert(0 <= x < red.len() && red[x] == v as usize);
    }
}

/// What the ranged graph of the compiled transducer does on a prefix of a
/// word that the transducer can follow: one state is active, that of the state
/// in which the prefix ends, and the output along the path to it is the text
/// of the outputs of the edges along the prefix.
pub proof fn lemma_sound_prefix(
    states: Seq<State>,
    alphabet: Seq<A>,
    red: Seq<usize>,
    pos: V,
    order: Seq<NodeId>,
    word: Seq<I>,
    k: nat,
)
    requires
        compiled_context(states, alphabet, red),
        reached_order(compiled(states, alphabet, red, pos), order),
        k <= word.len(),
        forall|i: int| 0 <= i < word.len() ==> #[trigger] word[i] < alphabet.len(),
        lands(states, 0, word.subrange(0, k as int)).is_some(),
        no_nul(path_out(states, 0, word.subrange(0, k as int))),
    ensures
        ({
            let rg = ranged(compiled(states, alphabet, red, pos), order);
            let input = word_symbols(alphabet, word);
            let v = lands(states, 0, word.subrange(0, k as int)).unwrap();
            let col = column(rg, input, k);
            &&& 0 <= v < states.len()
            &&& red.contains(v as usize)
            &&& k > 0 ==> order.contains(v as usize)
            &&& col.len() == 1
            &&& col[0].state == state_after(order, states.len(), k, v)
            &&& col[0].prev_index == 0
            &&& valid_utf8(path_out(states, 0, word.subrange(0, k as int)))
            &&& path_output(rg, input, k, 0) == symbols_of(
                decode_utf8(path_out(states, 0, word.subrange(0, k as int))),
            )
        }),
    decreases k,
{
    let g = compiled(states, alphabet, red, pos);
    let rg = ranged(g, order);
    let input = word_symbols(alphabet, word);
    let n = alphabet.len();
    let idx = index_table(order, states.len());
    let here = word.subrange(0, k as int);
    if k == 0 {
        assert(here =~= Seq::<I>::empty());
        assert(red[0] == 0usize);
        assert(path_out(states, 0, here) =~= Seq::<u8>::empty());
        assert(decode_utf8(Seq::<u8>::empty()) =~= Seq::<char>::empty());
        assert(symbols_of(Seq::<char>::empty()) =~= Seq::<A>::empty());
    } else {
        let before = word.subrange(0, k - 1);
        let c = word[k - 1];
        assert(here =~= before.push(c));
        lemma_lands_push(states, 0, before, c);
        let u = lands(states, 0, before).unwrap();
        let e = edge_of(states, u, c as int).unwrap();
        let v = target_of(e.target);
        assert(path_out(states, 0, here) == path_out(states, 0, before) + e.output@);
        assert(no_nul(path_out(states, 0, before))) by {
            assert forall|i: int| 0 <= i < path_out(states, 0, before).len() implies (
            #[trigger] path_out(states, 0, before)[i]) != 0 by {
                assert(path_out(states, 0, here)[i] == path_out(states, 0, before)[i]);
            }
        }
        assert(no_nul(e.output@)) by {
            assert forall|i: int| 0 <= i < e.output@.len() implies (#[trigger] e.output@[i])
                != 0 by {
                assert(path_out(states, 0, here)[path_out(states, 0, before).len() + i]
                    == e.output@[i]);
            }
        }
        lemma_sound_prefix(states, alphabet, red, pos, order, word, (k - 1) as nat);
        lemma_state_table(states, alphabet, red, pos, order, (k - 1) as nat, u);
        let s = state_after(order, states.len(), (k - 1) as nat, u);
        let edges = state_edges(states[u], alphabet, n);
        let x = alphabet[c as int];
        assert(input[k - 1] == x);
        assert(states[u].transitions@.len() == n);
        assert(states[u].transitions@[c as int] == Some(e));
        // the state of the transducer is one that it is left with
        let ku = choose|ku: int| 0 <= ku < red.len() && red[ku] == u as usize;
        assert(match states[red[ku] as int].transitions@[c as int] {
            Some(e2) => red.contains(target_of(e2.target) as usize),
            None => true,
        });
        assert(red.contains(v as usize));
        assert(state_is_text(states[red[ku] as int]));
        lemma_edge_is_text(states[u], n, c as int);
        // the one transition that is active
        crate::learn::ostia_compress::lemma_state_edges_within(states, alphabet, u, n);
        lemma_table_lookup(edges, idx, x);
        let k0 = lemma_state_edges_covering(states[u], alphabet, n, c as int);
        lemma_state_edges_len(states[u], alphabet, n);
        lemma_activation_order_perm(edges, edges.len());
        let ord = activation_order(edges, edges.len());
        assert forall|p: int| 0 <= p < ord.len() implies (covers(
            edges[(#[trigger] ord[p]) as int].0,
            x,
        ) <==> ord[p] == k0 as usize) by {
            assert(ord.contains(ord[p]));
            assert(ord[p] < edges.len());
            assert(covers(edges[ord[p] as int].0, x) <==> ord[p] as int == k0);
        }
        lemma_active_single(edges, idx, ord, x, k0 as usize);
        assert(ord.contains(k0 as usize));
        let tr = transition_of(edges[k0], idx);
        assert(lookup(rg, s, x) == seq![tr]);
        // the node of the next state can be reached
        assert(edges[k0].1 == v as usize);
        if k == 1 {
            assert(u == 0);
            assert(g.incoming[k0].1 == v as usize);
            lemma_reachable_self(g.nodes, v as usize);
            assert(reachable(g.nodes, g.incoming[k0].1, v as usize));
        } else {
            assert(order.contains(u as usize));
            let i = choose|i: int|
                0 <= i < g.incoming.len() && #[trigger] reachable(
                    g.nodes,
                    g.incoming[i].1,
                    u as usize,
                );
            assert(g.nodes[u].outgoing == edges);
            assert(has_edge(g.nodes, u as usize, v as usize)) by {
                assert(g.nodes[u].outgoing[k0].1 == v as usize);
            }
            lemma_reachable_step(g.nodes, g.incoming[i].1, u as usize, v as usize);
        }
        assert(order.contains(v as usize));
        // the next column
        let prev = column(rg, input, (k - 1) as nat);
        assert(prev[0].state == s);
        let trs = seq![tr];
        assert(trs.drop_last() =~= Seq::<TransitionView>::empty());
        assert(next_column_upto(rg, prev, x, 0) =~= Seq::<NodeView>::empty());
        let start = Seq::<NodeView>::empty();
        assert(step_all(start, 0, trs.drop_last()) == start);
        assert(step_all(start, 0, trs) == step(start, 0, tr));
        let entry = NodeView { prev_index: 0, state: idx[v], edge: Some(tr) };
        assert(step(start, 0, tr) =~= seq![entry]);
        assert(next_column_upto(rg, prev, x, 1) == step_all(
            next_column_upto(rg, prev, x, 0),
            0,
            lookup(rg, prev[0].state, x),
        ));
        assert(column(rg, input, k) == seq![entry]);
        // the output along the path
        lemma_no_nul(e.output@);
        lemma_reflect_nothing(symbols_of(decode_utf8(e.output@)), x);
        lemma_symbols_concat(path_out(states, 0, before), e.output@);
    }
}

/// A state has at most one edge for each symbol.
pub proof fn lemma_state_edges_len(state: State, alphabet: Seq<A>, n: nat)
    ensures
        state_edges(state, alphabet, n).len() <= n,
    decreases n,
{
    if n > 0 {
        lemma_state_edges_len(state, alphabet, (n - 1) as nat);
    }
}

/// The output of an edge of a state whose outputs are strings is a string.
pub proof fn lemma_edge_is_text(state: State, n: nat, c: int)
    requires
        edges_are_text(state, n),
        0 <= c < n,
        state.transitions@[c].is_some(),
    ensures
        valid_utf8(state.transitions@[c].unwrap().output@),
    decreases n,
{
    if c < n - 1 {
        lemma_edge_is_text(state, (n - 1) as nat, c);
    }
}

/// The compiled transducer is sound: for a word for which the transducer
/// gives an output the ranged graph of its compiled graph gives the text of
/// that output, provided that the output holds no zero byte, which would
/// stand for the reflection marker.
pub proof fn lemma_ostia_sound(
    states: Seq<State>,
    alphabet: Seq<A>,
    red: Seq<usize>,
    pos: V,
    order: Seq<NodeId>,
    word: Seq<I>,
)
    requires
        compiled_context(states, alphabet, red),
        reached_order(compiled(states, alphabet, red, pos), order),
        forall|i: int| 0 <= i < word.len() ==> #[trigger] word[i] < alphabet.len(),
        ptt_out(states, 0, word).is_some(),
        no_nul(ptt_out(states, 0, word).unwrap()),
    ensures
        valid_utf8(ptt_out(states, 0, word).unwrap()),
        evaluate(
            ranged(compiled(states, alphabet, red, pos), order),
            word_symbols(alphabet, word),
        ) == Some(symbols_of(decode_utf8(ptt_out(states, 0, word).unwrap()))),
{
    let g = compiled(states, alphabet, red, pos);
    let rg = ranged(g, order);
    let input = word_symbols(alphabet, word);
    let k = word.len();
    lemma_out_by_path(states, 0, word);
    let v = lands(states, 0, word).unwrap();
    let o = accepted(states[v].output).unwrap();
    let along = path_out(states, 0, word);
    let all = ptt_out(states, 0, word).unwrap();
    assert(all == along + o);
    assert(word.subrange(0, k as int) =~= word);
    assert(no_nul(along)) by {
        assert forall|i: int| 0 <= i < along.len() implies (#[trigger] along[i]) != 0 by {
            assert(all[i] == along[i]);
        }
    }
    assert(no_nul(o)) by {
        assert forall|i: int| 0 <= i < o.len() implies (#[trigger] o[i]) != 0 by {
            assert(all[along.len() + i] == o[i]);
        }
    }
    lemma_sound_prefix(states, alphabet, red, pos, order, word, k);
    lemma_state_table(states, alphabet, red, pos, order, k, v);
    let last = column(rg, input, k);
    assert(input.len() == k);
    let kv = choose|kv: int| 0 <= kv < red.len() && red[kv] == v as usize;
    assert(state_is_text(states[red[kv] as int]));
    assert(valid_utf8(o));
    assert(rg.accepting[last[0].state as int] == compiled_final(states[v]));
    assert(best_final(rg, last, 0) == None::<int>);
    assert(best_final(rg, last, 1) == Some(0int));
    lemma_no_nul(o);
    lemma_reflect_nothing(symbols_of(decode_utf8(o)), 0);
    lemma_symbols_concat(along, o);
}


/// The bytes of a scalar other than 0 are other than 0.
pub proof fn lemma_encode_scalar_no_nul(c: u32)
    requires
        vstd::utf8::is_scalar(c),
        c != 0,
    ensures
        no_nul(encode_scalar(c)),
{
    let b = encode_scalar(c);
    if vstd::utf8::has_width_1_encoding(c) {
        assert((c & 0x7F) as u8 != 0) by (bit_vector)
            requires
                c != 0,
                c <= 0x7F,
        ;
    } else if vstd::utf8::has_width_2_encoding(c) {
        assert(0xC0u8 | ((c >> 6) & 0x1F) as u8 != 0) by (bit_vector);
        assert(0x80u8 | (c & 0x3F) as u8 != 0) by (bit_vector);
    } else if vstd::utf8::has_width_3_encoding(c) {
        assert(0xE0u8 | ((c >> 12) & 0x0F) as u8 != 0) by (bit_vector);
        assert(0x80u8 | ((c >> 6) & 0x3F) as u8 != 0) by (bit_vector);
        assert(0x80u8 | (c & 0x3F) as u8 != 0) by (bit_vector);
    } else {
        assert(0xF0u8 | ((c >> 18) & 0x7) as u8 != 0) by (bit_vector);
        assert(0x80u8 | ((c >> 12) & 0x3F) as u8 != 0) by (bit_vector);
        assert(0x80u8 | ((c >> 6) & 0x3F) as u8 != 0) by (bit_vector);
        assert(0x80u8 | (c & 0x3F) as u8 != 0) by (bit_vector);
    }
}

/// The bytes of a text without the character 0 are other than 0.
pub proof fn lemma_encode_no_nul(chars: Seq<char>)
    requires
        forall|i: int| 0 <= i < chars.len() ==> #[trigger] chars[i] != '\0',
    ensures
        no_nul(encode_utf8(chars)),
    decreases chars.len(),
{
    if chars.len() > 0 {
        let rest = chars.drop_first();
        assert forall|i: int| 0 <= i < rest.len() implies #[trigger] rest[i] != '\0' by {
            assert(rest[i] == chars[i + 1]);
        }
        lemma_encode_no_nul(rest);
        vstd::utf8::char_is_scalar(chars[0]);
        assert(chars[0] != '\0');
        assert(chars[0] as u32 != 0) by {
            if chars[0] as u32 == 0 {
                vstd::utf8::char_u32_cast(chars[0], 0u32);
            }
        }
        lemma_encode_scalar_no_nul(chars[0] as u32);
        let head = encode_scalar(chars[0] as u32);
        let tail = encode_utf8(rest);
        let all = encode_utf8(chars);
        assert forall|i: int| 0 <= i < all.len() implies #[trigger] all[i] != 0 by {
            if i < head.len() {
                assert(all[i] == head[i]);
            } else {
                assert(all[i] == tail[i - head.len()]);
            }
        }
    }
}

/// The inference is sound: the ranged graph of the graph that was compiled
/// from the transducer of an informant gives, for the input of each sample
/// that has an output, the output of that sample. This holds of outputs
/// without the character 0, which as an output stands for the input symbol.
pub proof fn lemma_samples_are_learnt(
    informant: Seq<(IntSeq, Option<IntSeq>)>,
    states: Seq<State>,
    alphabet: Seq<A>,
    red: Seq<usize>,
    pos: V,
    order: Seq<NodeId>,
    i: int,
)
    requires
        compiled_context(states, alphabet, red),
        reached_order(compiled(states, alphabet, red, pos), order),
        inputs_known(informant, alphabet),
        forall|j: int| 0 <= j < informant.len() ==> !conflict_at(informant, alphabet, j),
        forall|w: Seq<I>| #[trigger]
            ptt_out(states, 0, w) == taught(informant, alphabet, informant.len(), w),
        0 <= i < informant.len(),
        informant[i].1.is_some(),
        forall|x: int|
            0 <= x < informant[i].1.unwrap()@.len() ==> #[trigger] informant[i].1.unwrap()@[x]
                != '\0',
    ensures
        evaluate(
            ranged(compiled(states, alphabet, red, pos), order),
            informant[i].0.symbols(),
        ) == Some(informant[i].1.unwrap().symbols()),
{
    let sample = informant[i];
    let word = sample_word(alphabet, sample);
    let y = sample.1.unwrap()@;
    lemma_taught_sample(informant, alphabet, informant.len(), i);
    assert(ptt_out(states, 0, word) == Some(sample_output(sample)));
    lemma_encode_no_nul(y);
    vstd::utf8::encode_utf8_decode_utf8(y);
    assert forall|x: int| 0 <= x < word.len() implies #[trigger] word[x] < alphabet.len() by {
        let c = sample.0.symbols()[x];
        assert(alphabet.contains(c));
        let at = alphabet.index_of(c);
        assert(alphabet[at] == c);
    }
    assert(word_symbols(alphabet, word) =~= sample.0.symbols()) by {
        assert forall|x: int| 0 <= x < word.len() implies word_symbols(alphabet, word)[x]
            == sample.0.symbols()[x] by {
            let c = sample.0.symbols()[x];
            assert(alphabet.contains(c));
            let at = alphabet.index_of(c);
            assert(alphabet[at] == c);
        }
    }
    lemma_ostia_sound(states, alphabet, red, pos, order, word);
}


/// What is learnt from samples gives their outputs: every ranged graph of
/// the graph that was learnt gives, for the input of each sample that has an
/// output, the output of that sample. This holds where the machine can
/// number the alphabet and the states, and of outputs without the character
/// 0, which as an output stands for the input symbol.
pub proof fn lemma_learnt_sound(
    informant: Seq<(IntSeq, Option<IntSeq>)>,
    x: Inferred,
    pos: V,
    rg: RGView,
    i: int,
)
    requires
        learnt(informant, x, pos),
        x.ptt.alphabet@.len() <= usize::MAX,
        x.ptt.states@.len() < usize::MAX,
        is_ranged_of(x.g@, rg),
        0 <= i < informant.len(),
        informant[i].1.is_some(),
        forall|k: int|
            0 <= k < informant[i].1.unwrap()@.len() ==> #[trigger] informant[i].1.unwrap()@[k]
                != '\0',
    ensures
        evaluate(rg, informant[i].0.symbols()) == Some(informant[i].1.unwrap().symbols()),
{
    let alphabet = alphabet_of(informant);
    let states = x.ptt.states@;
    let red = x.red@;
    let g = compiled(states, alphabet, red, pos);
    let order = choose|order: Seq<NodeId>|
        {
            &&& #[trigger] ranged(g, order) == rg
            &&& order.no_duplicates()
            &&& forall|k: NodeId|
                order.contains(k) <==> k < g.nodes.len() && exists|j: int|
                    0 <= j < g.incoming.len() && #[trigger] reachable(g.nodes, g.incoming[j].1, k)
        };
    lemma_order_len(order, g.nodes.len());
    lemma_first_occurrences_distinct(informant_symbols(informant, informant.len()));
    assert forall|d: int| 0 <= d < alphabet.len() implies #[trigger] alphabet[d] > REFLECT by {
        if alphabet[d] == REFLECT {
            assert(alphabet.contains(REFLECT));
        }
    }
    assert forall|a: int, b: int|
        0 <= a < informant.len() && 0 <= b < informant[a].0.symbols().len() implies alphabet.contains(
        #[trigger] informant[a].0.symbols()[b],
    ) by {
        lemma_informant_symbols(informant, informant.len(), a, b);
        lemma_first_occurrences(
            informant_symbols(informant, informant.len()),
            informant[a].0.symbols()[b],
        );
    }
    assert forall|w: Seq<I>| #[trigger]
        ptt_out(states, 0, w) == taught(informant, alphabet, informant.len(), w) by {
        assert(x.ptt.output_for(w) == taught(informant, alphabet, informant.len(), w));
    }
    lemma_samples_are_learnt(informant, states, alphabet, red, pos, order, i);
}


/// A way through the compiled graph is a way through the transducer: the
/// symbols along it are symbols of the alphabet, and the word of their
/// indices ends, in the transducer, in the state in which the way ends.
pub proof fn lemma_way_in_tree(
    states: Seq<State>,
    alphabet: Seq<A>,
    red: Seq<usize>,
    pos: V,
    v: int,
    x: Seq<A>,
    steps: Seq<int>,
) -> (word: Seq<I>)
    requires
        compiled_context(states, alphabet, red),
        0 <= v < states.len(),
        red.contains(v as usize),
        follow(compiled(states, alphabet, red, pos).nodes, v as usize, x, steps).is_some(),
    ensures
        word.len() == x.len(),
        forall|i: int| 0 <= i < word.len() ==> #[trigger] word[i] < alphabet.len(),
        word_symbols(alphabet, word) == x,
        lands(states, v, word) == Some(
            follow(compiled(states, alphabet, red, pos).nodes, v as usize, x, steps).unwrap().0
                as int,
        ),
        red.contains(
            follow(compiled(states, alphabet, red, pos).nodes, v as usize, x, steps).unwrap().0,
        ),
    decreases x.len(),
{
    let g = compiled(states, alphabet, red, pos);
    let n = alphabet.len();
    if x.len() == 0 {
        let word = Seq::<I>::empty();
        assert(word_symbols(alphabet, word) =~= x);
        word
    } else {
        let edges = state_edges(states[v], alphabet, n);
        assert(g.nodes[v].outgoing == edges);
        let j = steps[0];
        let (e, t) = edges[j];
        let c = lemma_state_edges_symbols(states[v], alphabet, n, j);
        let edge = states[v].transitions@[c].unwrap();
        assert(edges[j] == compiled_edge(alphabet[c], edge));
        assert(alphabet[c] > REFLECT);
        assert(x[0] == alphabet[c]);
        let k = choose|k: int| 0 <= k < red.len() && red[k] == v as usize;
        assert(states[red[k] as int].transitions@[c] == Some(edge));
        assert(red.contains(target_of(edge.target) as usize));
        assert(t == target_of(edge.target) as usize);
        let rest = lemma_way_in_tree(
            states,
            alphabet,
            red,
            pos,
            t as int,
            x.drop_first(),
            steps.drop_first(),
        );
        let word = seq![c as I] + rest;
        assert(word.drop_first() =~= rest);
        assert(word[0] == c as I);
        assert(edge_of(states, v, word[0] as int) == Some(edge));
        assert forall|i: int| 0 <= i < word.len() implies #[trigger] word[i] < alphabet.len() by {
            if i > 0 {
                assert(word[i] == rest[i - 1]);
            }
        }
        assert(word_symbols(alphabet, word) =~= x) by {
            assert forall|i: int| 0 <= i < x.len() implies word_symbols(alphabet, word)[i]
                == x[i] by {
                if i > 0 {
                    assert(word[i] == rest[i - 1]);
                    assert(word_symbols(alphabet, rest)[i - 1] == x.drop_first()[i - 1]);
                }
            }
        }
        word
    }
}

/// The compiled transducer gives nothing that the transducer does not give:
/// an input for which the ranged graph of the compiled graph gives an output
/// is written with symbols of the alphabet, and the transducer gives an
/// output for the word of their indices.
pub proof fn lemma_ostia_complete(
    states: Seq<State>,
    alphabet: Seq<A>,
    red: Seq<usize>,
    pos: V,
    order: Seq<NodeId>,
    x: Seq<A>,
) -> (word: Seq<I>)
    requires
        compiled_context(states, alphabet, red),
        compiled(states, alphabet, red, pos).wf(),
        reached_order(compiled(states, alphabet, red, pos), order),
        plain_input(x),
        evaluate(ranged(compiled(states, alphabet, red, pos), order), x).is_some(),
    ensures
        word.len() == x.len(),
        forall|i: int| 0 <= i < word.len() ==> #[trigger] word[i] < alphabet.len(),
        word_symbols(alphabet, word) == x,
        ptt_out(states, 0, word).is_some(),
{
    let g = compiled(states, alphabet, red, pos);
    let rg = ranged(g, order);
    let y = evaluate(rg, x).unwrap();
    lemma_evaluation_sound(g, order, x);
    let w = choose|w: W| accepts(g, x, y, w);
    if x.len() == 0 {
        let word = Seq::<I>::empty();
        assert(word_symbols(alphabet, word) =~= x);
        assert(g.epsilon.is_some());
        word
    } else {
        let run = choose|run: Run| #[trigger] run_result(g, x, run) == Some((y, w));
        let (e, t) = g.incoming[run.entry];
        assert(red[0] == 0usize);
        assert(red.contains(0usize));
        assert(g.nodes[0].outgoing == g.incoming);
        let steps = seq![run.entry] + run.steps;
        assert(steps.drop_first() =~= run.steps);
        assert(steps[0] == run.entry);
        let u = follow(g.nodes, t, x.drop_first(), run.steps).unwrap().0;
        assert(follow(g.nodes, 0usize, x, steps).is_some());
        assert(follow(g.nodes, 0usize, x, steps).unwrap().0 == u);
        let word = lemma_way_in_tree(states, alphabet, red, pos, 0, x, steps);
        assert(g.outgoing[run.exit].0 == u);
        lemma_final_of(g.outgoing, u);
        lemma_compiled_final_of(states, red, red.len(), u);
        lemma_out_by_path(states, 0, word);
        word
    }
}

/// What the first samples teach of a word, one of them teaches.
pub proof fn lemma_taught_by(
    informant: Seq<(IntSeq, Option<IntSeq>)>,
    alphabet: Seq<A>,
    n: nat,
    w: Seq<I>,
) -> (i: int)
    requires
        taught(informant, alphabet, n, w).is_some(),
    ensures
        0 <= i < n,
        i < informant.len(),
        informant[i].1.is_some(),
        sample_word(alphabet, informant[i]) == w,
    decreases n,
{
    let sample = informant[n - 1];
    if sample.1.is_some() && sample_word(alphabet, sample) == w {
        n - 1
    } else {
        lemma_taught_by(informant, alphabet, (n - 1) as nat, w)
    }
}

/// What is learnt from samples gives nothing but their outputs: an input
/// without the reflection marker for which a ranged graph of the graph that
/// was learnt gives an output is the input of a sample that has an output.
/// This holds where the machine can number the alphabet and the states.
pub proof fn lemma_learnt_complete(
    informant: Seq<(IntSeq, Option<IntSeq>)>,
    x: Inferred,
    pos: V,
    rg: RGView,
    input: Seq<A>,
) -> (i: int)
    requires
        learnt(informant, x, pos),
        x.ptt.alphabet@.len() <= usize::MAX,
        x.ptt.states@.len() < usize::MAX,
        is_ranged_of(x.g@, rg),
        plain_input(input),
        evaluate(rg, input).is_some(),
    ensures
        0 <= i < informant.len(),
        informant[i].1.is_some(),
        informant[i].0.symbols() == input,
{
    let alphabet = alphabet_of(informant);
    let states = x.ptt.states@;
    let red = x.red@;
    let g = compiled(states, alphabet, red, pos);
    let order = choose|order: Seq<NodeId>|
        {
            &&& #[trigger] ranged(g, order) == rg
            &&& order.no_duplicates()
            &&& forall|k: NodeId|
                order.contains(k) <==> k < g.nodes.len() && exists|j: int|
                    0 <= j < g.incoming.len() && #[trigger] reachable(g.nodes, g.incoming[j].1, k)
        };
    lemma_order_len(order, g.nodes.len());
    lemma_first_occurrences_distinct(informant_symbols(informant, informant.len()));
    assert forall|d: int| 0 <= d < alphabet.len() implies #[trigger] alphabet[d] > REFLECT by {
        if alphabet[d] == REFLECT {
            assert(alphabet.contains(REFLECT));
        }
    }
    let word = lemma_ostia_complete(states, alphabet, red, pos, order, input);
    assert(x.ptt.output_for(word) == taught(informant, alphabet, informant.len(), word));
    let i = lemma_taught_by(informant, alphabet, informant.len(), word);
    let symbols = informant[i].0.symbols();
    assert(symbols =~= input) by {
        assert(sample_word(alphabet, informant[i]) == word);
        assert(symbols.len() == word.len());
        assert forall|k: int| 0 <= k < symbols.len() implies symbols[k] == input[k] by {
            lemma_informant_symbols(informant, informant.len(), i, k);
            lemma_first_occurrences(informant_symbols(informant, informant.len()), symbols[k]);
            let c = symbols[k];
            assert(alphabet.contains(c));
            let at = alphabet.index_of(c);
            assert(alphabet[at] == c);
            assert(word[k] == at as I);
            assert(word_symbols(alphabet, word)[k] == alphabet[word[k] as int]);
        }
    }
    i
}

} // verus!
