use crate::int_embedding::{Alphabet, IntEmbedding, I};
use crate::int_seq::{IntSeq, A};
use crate::collect::{count_unset, lemma_order_no_duplicates, NodeSet};
use crate::compilation_error::CompErr;
use crate::e::{EView, E};
use crate::func_arg::Informant;
use crate::g::{edges_within, finals_view, finals_within, GView, G};
use crate::int_seq::REFLECT;
use crate::n::{edges_view, NView, NodeId, N};
use crate::p::{PView, P};
use crate::pool::Pool;
use crate::seq::Sequence;
use crate::v::V;
use vstd::utf8::{decode_utf8, encode_utf8, valid_utf8};
use vstd::prelude::*;

verus! {

/// What a state says of the inputs that end in it.
#[derive(Debug)]
pub enum Kind {
    /// They are accepted, with this output behind the outputs of the edges.
    Accepting(Sequence<u8>),
    /// They are rejected.
    Rejecting,
    /// The samples say nothing of them.
    Unknown,
}

/// Where an edge leads: to a state by its index in the tree.
#[derive(Debug, Clone, Copy)]
pub enum Link {
    /// To a state that was there before, with which the child was merged.
    Weak(usize),
    /// To the child that the edge was made with.
    Strong(usize),
}

/// An edge of a prefix tree transducer.
#[derive(Debug)]
pub struct Edge {
    pub output: Sequence<u8>,
    pub target: Link,
}

/// A state of a prefix tree transducer: what it says of the inputs that end in
/// it, and one slot for an edge for each symbol of the alphabet.
#[derive(Debug)]
pub struct State {
    pub output: Kind,
    pub transitions: Vec<Option<Edge>>,
}

/// The index of the state that the link leads to.
pub open spec fn target_of(l: Link) -> int {
    match l {
        Link::Weak(t) => t as int,
        Link::Strong(t) => t as int,
    }
}

/// The output with which a state of this kind accepts, if it does.
pub open spec fn accepted(k: Kind) -> Option<Seq<u8>> {
    match k {
        Kind::Accepting(s) => Some(s@),
        _ => None,
    }
}

/// The edge that leaves the state `s` on the symbol `c`, if there is one.
pub open spec fn edge_of(states: Seq<State>, s: int, c: int) -> Option<Edge> {
    if 0 <= s < states.len() && 0 <= c < states[s].transitions@.len() {
        states[s].transitions@[c]
    } else {
        None
    }
}

/// The output `o`, if there is one, with `p` in front.
pub open spec fn prefixed(p: Seq<u8>, o: Option<Seq<u8>>) -> Option<Seq<u8>> {
    match o {
        Some(x) => Some(p + x),
        None => None,
    }
}

/// The output that the transducer gives for the input `w` when it starts in
/// the state `s`: the outputs of the edges along `w`, followed by the output of
/// the state in which `w` ends. There is none if an edge is missing on the way
/// or if that state does not accept.
pub open spec fn ptt_out(states: Seq<State>, s: int, w: Seq<I>) -> Option<Seq<u8>>
    decreases w.len(),
{
    if !(0 <= s < states.len()) {
        None
    } else if w.len() == 0 {
        accepted(states[s].output)
    } else {
        match edge_of(states, s, w[0] as int) {
            None => None,
            Some(e) => prefixed(e.output@, ptt_out(states, target_of(e.target), w.drop_first())),
        }
    }
}

/// The state in which the input `w` ends when the transducer starts in the
/// state `s`, if no edge is missing on the way.
pub open spec fn lands(states: Seq<State>, s: int, w: Seq<I>) -> Option<int>
    decreases w.len(),
{
    if !(0 <= s < states.len()) {
        None
    } else if w.len() == 0 {
        Some(s)
    } else {
        match edge_of(states, s, w[0] as int) {
            None => None,
            Some(e) => lands(states, target_of(e.target), w.drop_first()),
        }
    }
}

/// The outputs of the edges along the input `w` from the state `s`.
pub open spec fn path_out(states: Seq<State>, s: int, w: Seq<I>) -> Seq<u8>
    decreases w.len(),
{
    if !(0 <= s < states.len()) || w.len() == 0 {
        Seq::empty()
    } else {
        match edge_of(states, s, w[0] as int) {
            None => Seq::empty(),
            Some(e) => e.output@ + path_out(states, target_of(e.target), w.drop_first()),
        }
    }
}

/// Whether the states make a transducer over an alphabet of `alphabet_len`
/// symbols: there is a root, every state has one slot for each symbol, no state
/// rejects, every edge leads to a state, and an edge to a child leads to a
/// state behind its source.
pub open spec fn states_wf(states: Seq<State>, alphabet_len: nat) -> bool {
    &&& states.len() >= 1
    &&& forall|s: int|
        0 <= s < states.len() ==> (#[trigger] states[s]).transitions@.len() == alphabet_len && !(
        states[s].output is Rejecting)
    &&& forall|s: int, c: int|
        0 <= s < states.len() && 0 <= c < alphabet_len ==> match #[trigger] states[s].transitions@[c] {
            Some(e) => 0 <= target_of(e.target) < states.len() && (e.target is Strong ==> target_of(
                e.target,
            ) > s),
            None => true,
        }
}

/// Whether the states make a tree: every edge leads to a child, and no state
/// is the child of two edges.
pub open spec fn is_tree(states: Seq<State>) -> bool {
    &&& forall|s: int, c: int|
        0 <= s < states.len() && 0 <= c < states[s].transitions@.len() ==> match #[trigger] states[s].transitions@[c] {
            Some(e) => e.target is Strong,
            None => true,
        }
    &&& forall|s1: int, c1: int, s2: int, c2: int|
        0 <= s1 < states.len() && 0 <= c1 < states[s1].transitions@.len() && 0 <= s2 < states.len()
            && 0 <= c2 < states[s2].transitions@.len() && (
        #[trigger] states[s1].transitions@[c1]).is_some() && (
        #[trigger] states[s2].transitions@[c2]).is_some() && target_of(
            states[s1].transitions@[c1].unwrap().target,
        ) == target_of(states[s2].transitions@[c2].unwrap().target) ==> s1 == s2 && c1 == c2
}

/// An input that ends in a state and goes on by one symbol ends where the edge
/// for that symbol leads.
pub proof fn lemma_lands_push(states: Seq<State>, s: int, w: Seq<I>, c: I)
    ensures
        lands(states, s, w.push(c)) == match lands(states, s, w) {
            None => None,
            Some(v) => match edge_of(states, v, c as int) {
                None => None,
                Some(e) => if 0 <= target_of(e.target) < states.len() {
                    Some(target_of(e.target))
                } else {
                    None
                },
            },
        },
        lands(states, s, w).is_some() && edge_of(
            states,
            lands(states, s, w).unwrap(),
            c as int,
        ).is_some() ==> path_out(states, s, w.push(c)) == path_out(states, s, w) + edge_of(
            states,
            lands(states, s, w).unwrap(),
            c as int,
        ).unwrap().output@,
    decreases w.len(),
{
    let longer = w.push(c);
    if !(0 <= s < states.len()) {
    } else if w.len() == 0 {
        assert(longer.drop_first() =~= Seq::<I>::empty());
        assert(longer[0] == c);
        match edge_of(states, s, c as int) {
            None => {},
            Some(e) => {
                let t = target_of(e.target);
                assert(lands(states, t, Seq::<I>::empty()) == if 0 <= t < states.len() {
                    Some(t)
                } else {
                    None
                });
                assert(path_out(states, target_of(e.target), Seq::<I>::empty()) =~= Seq::<
                    u8,
                >::empty());
                assert(path_out(states, s, longer) =~= e.output@);
                assert(path_out(states, s, w) + e.output@ =~= e.output@);
            },
        }
    } else {
        assert(longer.drop_first() =~= w.drop_first().push(c));
        assert(longer[0] == w[0]);
        match edge_of(states, s, w[0] as int) {
            None => {},
            Some(e) => {
                lemma_lands_push(states, target_of(e.target), w.drop_first(), c);
                let t = target_of(e.target);
                if lands(states, s, w).is_some() && edge_of(
                    states,
                    lands(states, s, w).unwrap(),
                    c as int,
                ).is_some() {
                    let last = edge_of(states, lands(states, s, w).unwrap(), c as int).unwrap();
                    assert(path_out(states, s, longer) =~= e.output@ + (path_out(
                        states,
                        t,
                        w.drop_first(),
                    ) + last.output@));
                    assert(path_out(states, s, longer) =~= path_out(states, s, w) + last.output@);
                }
            },
        }
    }
}

/// An input that ends in a state gives the outputs of its edges and then what
/// that state accepts with.
pub proof fn lemma_out_by_path(states: Seq<State>, s: int, w: Seq<I>)
    ensures
        ptt_out(states, s, w) == match lands(states, s, w) {
            None => None,
            Some(v) => prefixed(path_out(states, s, w), accepted(states[v].output)),
        },
    decreases w.len(),
{
    if !(0 <= s < states.len()) {
    } else if w.len() == 0 {
        match accepted(states[s].output) {
            Some(o) => {
                assert(Seq::<u8>::empty() + o =~= o);
            },
            None => {},
        }
    } else {
        match edge_of(states, s, w[0] as int) {
            None => {},
            Some(e) => {
                let t = target_of(e.target);
                lemma_out_by_path(states, t, w.drop_first());
                match lands(states, t, w.drop_first()) {
                    None => {},
                    Some(v) => {
                        match accepted(states[v].output) {
                            Some(o) => {
                                assert(e.output@ + (path_out(states, t, w.drop_first()) + o) =~= (
                                e.output@ + path_out(states, t, w.drop_first())) + o);
                            },
                            None => {},
                        }
                    },
                }
            },
        }
    }
}

/// In a tree an input ends behind the state in which it starts, or in it if
/// the input is empty.
pub proof fn lemma_lands_increasing(states: Seq<State>, n: nat, s: int, w: Seq<I>)
    requires
        states_wf(states, n),
        is_tree(states),
        lands(states, s, w).is_some(),
    ensures
        w.len() == 0 ==> lands(states, s, w).unwrap() == s,
        w.len() > 0 ==> lands(states, s, w).unwrap() > s,
        0 <= lands(states, s, w).unwrap() < states.len(),
    decreases w.len(),
{
    if w.len() > 0 {
        let e = edge_of(states, s, w[0] as int).unwrap();
        assert(states[s].transitions@[w[0] as int] == Some(e));
        lemma_lands_increasing(states, n, target_of(e.target), w.drop_first());
    }
}

/// In a tree two inputs that end in the same state are the same input.
pub proof fn lemma_lands_unique(states: Seq<State>, n: nat, w1: Seq<I>, w2: Seq<I>)
    requires
        states_wf(states, n),
        is_tree(states),
        lands(states, 0, w1).is_some(),
        lands(states, 0, w1) == lands(states, 0, w2),
    ensures
        w1 == w2,
    decreases w1.len(),
{
    lemma_lands_increasing(states, n, 0, w1);
    lemma_lands_increasing(states, n, 0, w2);
    if w1.len() == 0 || w2.len() == 0 {
        assert(w1 =~= w2);
    } else {
        let f1 = w1.drop_last();
        let f2 = w2.drop_last();
        assert(w1 =~= f1.push(w1.last()));
        assert(w2 =~= f2.push(w2.last()));
        lemma_lands_push(states, 0, f1, w1.last());
        lemma_lands_push(states, 0, f2, w2.last());
        let p1 = lands(states, 0, f1).unwrap();
        let p2 = lands(states, 0, f2).unwrap();
        lemma_lands_increasing(states, n, 0, f1);
        lemma_lands_increasing(states, n, 0, f2);
        let e1 = edge_of(states, p1, w1.last() as int).unwrap();
        let e2 = edge_of(states, p2, w2.last() as int).unwrap();
        assert(states[p1].transitions@[w1.last() as int] == Some(e1));
        assert(states[p2].transitions@[w2.last() as int] == Some(e2));
        assert(p1 == p2 && w1.last() == w2.last());
        lemma_lands_unique(states, n, f1, f2);
    }
}


/// Whether the two lists of states agree but for the states `a` and `b`.
pub open spec fn same_but(states: Seq<State>, after: Seq<State>, a: int, b: int) -> bool {
    &&& after.len() == states.len()
    &&& forall|u: int| 0 <= u < states.len() && u != a && u != b ==> #[trigger] after[u] == states[u]
}

/// Whether `after` is the state `before` with the output of the edge for `c` cut
/// down to its first `n` bytes.
pub open spec fn edge_cut(before: State, after: State, c: int, n: int) -> bool {
    &&& after.output == before.output
    &&& after.transitions@.len() == before.transitions@.len()
    &&& 0 <= c < before.transitions@.len()
    &&& forall|d: int|
        0 <= d < before.transitions@.len() && d != c ==> #[trigger] after.transitions@[d]
            == before.transitions@[d]
    &&& before.transitions@[c].is_some()
    &&& after.transitions@[c].is_some()
    &&& after.transitions@[c].unwrap().target == before.transitions@[c].unwrap().target
    &&& 0 <= n <= before.transitions@[c].unwrap().output@.len()
    &&& after.transitions@[c].unwrap().output@ == before.transitions@[c].unwrap().output@.subrange(
        0,
        n,
    )
}

/// Whether `after` is the state `before` with `prefix` put in front of the
/// output of every edge and of the output with which it accepts.
pub open spec fn pushed_back(before: State, after: State, prefix: Seq<u8>) -> bool {
    &&& accepted(after.output) == prefixed(prefix, accepted(before.output))
    &&& (after.output is Rejecting) == (before.output is Rejecting)
    &&& after.transitions@.len() == before.transitions@.len()
    &&& forall|d: int|
        0 <= d < before.transitions@.len() ==> match (
            #[trigger] before.transitions@[d],
            after.transitions@[d],
        ) {
            (None, None) => true,
            (Some(e), Some(f)) => f.target == e.target && f.output@ == prefix + e.output@,
            _ => false,
        }
}

/// Cutting the output of an edge and pushing the rest back into its child
/// changes what the child gives, by that rest in front, and nothing else.
pub proof fn lemma_cut(
    states: Seq<State>,
    after: Seq<State>,
    n: nat,
    s: int,
    c: int,
    cut: int,
    u: int,
    w: Seq<I>,
)
    requires
        states_wf(states, n),
        is_tree(states),
        0 <= s < states.len(),
        0 <= c < n,
        states[s].transitions@[c].is_some(),
        same_but(
            states,
            after,
            s,
            target_of(states[s].transitions@[c].unwrap().target),
        ),
        edge_cut(states[s], after[s], c, cut),
        pushed_back(
            states[target_of(states[s].transitions@[c].unwrap().target)],
            after[target_of(states[s].transitions@[c].unwrap().target)],
            states[s].transitions@[c].unwrap().output@.subrange(
                cut,
                states[s].transitions@[c].unwrap().output@.len() as int,
            ),
        ),
    ensures
        ptt_out(after, u, w) == if u == target_of(states[s].transitions@[c].unwrap().target) {
            prefixed(
                states[s].transitions@[c].unwrap().output@.subrange(
                    cut,
                    states[s].transitions@[c].unwrap().output@.len() as int,
                ),
                ptt_out(states, u, w),
            )
        } else {
            ptt_out(states, u, w)
        },
    decreases w.len(),
{
    let e = states[s].transitions@[c].unwrap();
    let t = target_of(e.target);
    let suffix = e.output@.subrange(cut, e.output@.len() as int);
    let prefix = e.output@.subrange(0, cut);
    assert(prefix + suffix =~= e.output@);
    assert(t > s);
    if !(0 <= u < states.len()) {
    } else if w.len() == 0 {
    } else {
        let d = w[0] as int;
        let rest = w.drop_first();
        if 0 <= d < n {
            if u == t {
                match states[t].transitions@[d] {
                    None => {},
                    Some(e2) => {
                        let f = after[t].transitions@[d].unwrap();
                        let v = target_of(e2.target);
                        assert(v > t);
                        lemma_cut(states, after, n, s, c, cut, v, rest);
                        match ptt_out(states, v, rest) {
                            Some(o) => {
                                assert((suffix + e2.output@) + o =~= suffix + (e2.output@ + o));
                            },
                            None => {},
                        }
                    },
                }
            } else if u == s {
                if d == c {
                    lemma_cut(states, after, n, s, c, cut, t, rest);
                    match ptt_out(states, t, rest) {
                        Some(o) => {
                            assert(prefix + (suffix + o) =~= e.output@ + o);
                        },
                        None => {},
                    }
                } else {
                    match states[s].transitions@[d] {
                        None => {},
                        Some(e2) => {
                            let v = target_of(e2.target);
                            if v == t {
                                assert(states[s].transitions@[d].is_some());
                                assert(states[s].transitions@[c].is_some());
                                assert(false);
                            }
                            lemma_cut(states, after, n, s, c, cut, v, rest);
                        },
                    }
                }
            } else {
                assert(after[u] == states[u]);
                match states[u].transitions@[d] {
                    None => {},
                    Some(e2) => {
                        let v = target_of(e2.target);
                        if v == t {
                            assert(states[u].transitions@[d].is_some());
                            assert(states[s].transitions@[c].is_some());
                            assert(false);
                        }
                        lemma_cut(states, after, n, s, c, cut, v, rest);
                    },
                }
            }
        } else {
            assert(after[u].transitions@.len() == n);
        }
    }
}

/// Changes to a state and to states behind it leave the inputs that end in
/// that state where they were, with the outputs of their edges.
pub proof fn lemma_frame(
    states: Seq<State>,
    after: Seq<State>,
    n: nat,
    s: int,
    u: int,
    w: Seq<I>,
)
    requires
        states_wf(states, n),
        is_tree(states),
        after.len() >= states.len(),
        forall|v: int| 0 <= v < s ==> #[trigger] after[v] == states[v],
        lands(states, u, w) == Some(s),
    ensures
        lands(after, u, w) == Some(s),
        path_out(after, u, w) == path_out(states, u, w),
    decreases w.len(),
{
    lemma_lands_increasing(states, n, u, w);
    if w.len() > 0 {
        let e = edge_of(states, u, w[0] as int).unwrap();
        assert(after[u] == states[u]);
        lemma_frame(states, after, n, s, target_of(e.target), w.drop_first());
    }
}

/// Whether `after` is `states` with one more state at the end, which says
/// nothing and has no edges, and with a new edge to it from the state `s` on the
/// symbol `c`, where there was none.
pub open spec fn edge_added(states: Seq<State>, after: Seq<State>, s: int, c: int) -> bool {
    &&& after.len() == states.len() + 1
    &&& states.len() < usize::MAX
    &&& 0 <= s < states.len()
    &&& 0 <= c < states[s].transitions@.len()
    &&& forall|u: int| 0 <= u < states.len() && u != s ==> #[trigger] after[u] == states[u]
    &&& after[s].output == states[s].output
    &&& after[s].transitions@.len() == states[s].transitions@.len()
    &&& forall|d: int|
        0 <= d < states[s].transitions@.len() && d != c ==> #[trigger] after[s].transitions@[d]
            == states[s].transitions@[d]
    &&& states[s].transitions@[c].is_none()
    &&& after[s].transitions@[c].is_some()
    &&& after[s].transitions@[c].unwrap().target == Link::Strong(states.len() as usize)
    &&& after[states.len() as int].output is Unknown
    &&& after[states.len() as int].transitions@.len() == states[s].transitions@.len()
    &&& forall|d: int|
        0 <= d < states[s].transitions@.len() ==> (
        #[trigger] after[states.len() as int].transitions@[d]).is_none()
}

/// A new edge to a new state that says nothing changes nothing of what the
/// transducer gives.
pub proof fn lemma_edge_added(
    states: Seq<State>,
    after: Seq<State>,
    n: nat,
    s: int,
    c: int,
    u: int,
    w: Seq<I>,
)
    requires
        states_wf(states, n),
        edge_added(states, after, s, c),
    ensures
        ptt_out(after, u, w) == if u == states.len() {
            None
        } else {
            ptt_out(states, u, w)
        },
    decreases w.len(),
{
    let f = states.len() as int;
    assert(states[s].transitions@.len() == n);
    if u == f {
        if w.len() > 0 {
            let d = w[0] as int;
            if 0 <= d < n {
                assert(after[f].transitions@[d].is_none());
            }
        }
    } else if !(0 <= u < states.len()) {
    } else if w.len() == 0 {
    } else {
        let d = w[0] as int;
        let rest = w.drop_first();
        if 0 <= d < n {
            if u == s && d == c {
                lemma_edge_added(states, after, n, s, c, f, rest);
            } else {
                if u != s {
                    assert(after[u] == states[u]);
                }
                match states[u].transitions@[d] {
                    None => {},
                    Some(e2) => {
                        lemma_edge_added(states, after, n, s, c, target_of(e2.target), rest);
                    },
                }
            }
        } else {
            assert(after[u].transitions@.len() == n);
        }
    }
}

/// A new edge where there was none leaves the inputs that end somewhere where
/// they were, with the outputs of their edges.
pub proof fn lemma_edge_added_frame(
    states: Seq<State>,
    after: Seq<State>,
    n: nat,
    s: int,
    c: int,
    u: int,
    w: Seq<I>,
)
    requires
        states_wf(states, n),
        edge_added(states, after, s, c),
        lands(states, u, w).is_some(),
    ensures
        lands(after, u, w) == lands(states, u, w),
        path_out(after, u, w) == path_out(states, u, w),
    decreases w.len(),
{
    if w.len() > 0 {
        let d = w[0] as int;
        let e = edge_of(states, u, d).unwrap();
        if u != s {
            assert(after[u] == states[u]);
        }
        assert(states[u].transitions@[d] == Some(e));
        lemma_edge_added_frame(states, after, n, s, c, target_of(e.target), w.drop_first());
    }
}

/// A tree with a new edge to a new state is a tree.
pub proof fn lemma_edge_added_tree(states: Seq<State>, after: Seq<State>, n: nat, s: int, c: int)
    requires
        states_wf(states, n),
        is_tree(states),
        edge_added(states, after, s, c),
    ensures
        states_wf(after, n),
        is_tree(after),
{
    let f = states.len() as int;
    assert(states[s].transitions@.len() == n);
    assert forall|u: int| 0 <= u < after.len() implies (#[trigger] after[u]).transitions@.len() == n
        && !(after[u].output is Rejecting) by {
        if u < f && u != s {
            assert(after[u] == states[u]);
        }
    }
    assert forall|u: int, d: int| 0 <= u < after.len() && 0 <= d < n implies match #[trigger] after[u].transitions@[d] {
        Some(e) => 0 <= target_of(e.target) < after.len() && (e.target is Strong ==> target_of(
            e.target,
        ) > u),
        None => true,
    } by {
        if u == f {
            assert(after[f].transitions@[d].is_none());
        } else if u == s {
            if d != c {
                assert(after[s].transitions@[d] == states[s].transitions@[d]);
            }
        } else {
            assert(after[u] == states[u]);
            assert(after[u].transitions@[d] == states[u].transitions@[d]);
        }
    }
    assert forall|u: int, d: int|
        0 <= u < after.len() && 0 <= d < after[u].transitions@.len() implies match #[trigger] after[u].transitions@[d] {
        Some(e) => e.target is Strong,
        None => true,
    } by {
        if u == f {
            assert(after[f].transitions@[d].is_none());
        } else if u == s {
            if d != c {
                assert(after[s].transitions@[d] == states[s].transitions@[d]);
            }
        } else {
            assert(after[u] == states[u]);
            assert(after[u].transitions@[d] == states[u].transitions@[d]);
        }
    }
    assert forall|s1: int, c1: int, s2: int, c2: int|
        0 <= s1 < after.len() && 0 <= c1 < after[s1].transitions@.len() && 0 <= s2 < after.len()
            && 0 <= c2 < after[s2].transitions@.len() && (
        #[trigger] after[s1].transitions@[c1]).is_some() && (
        #[trigger] after[s2].transitions@[c2]).is_some() && target_of(
            after[s1].transitions@[c1].unwrap().target,
        ) == target_of(after[s2].transitions@[c2].unwrap().target) implies s1 == s2 && c1
        == c2 by {
        lemma_edge_added_old(states, after, n, s, c, s1, c1);
        lemma_edge_added_old(states, after, n, s, c, s2, c2);
    }
}

/// An edge of a tree with a new edge is the new edge, or an old one that leads
/// to an old state.
pub proof fn lemma_edge_added_old(
    states: Seq<State>,
    after: Seq<State>,
    n: nat,
    s: int,
    c: int,
    u: int,
    d: int,
)
    requires
        states_wf(states, n),
        edge_added(states, after, s, c),
        0 <= u < after.len(),
        0 <= d < after[u].transitions@.len(),
        after[u].transitions@[d].is_some(),
    ensures
        (u == s && d == c && target_of(after[u].transitions@[d].unwrap().target) == states.len())
            || (u < states.len() && d < states[u].transitions@.len() && (u != s || d != c)
            && states[u].transitions@[d] == after[u].transitions@[d] && target_of(
            after[u].transitions@[d].unwrap().target,
        ) < states.len()),
{
    let f = states.len() as int;
    assert(states[s].transitions@.len() == n);
    if u == f {
        assert(after[f].transitions@[d].is_none());
    } else if u == s {
        if d != c {
            assert(after[s].transitions@[d] == states[s].transitions@[d]);
            assert(states[s].transitions@[d].is_some());
        }
    } else {
        assert(after[u] == states[u]);
        assert(states[u].transitions@.len() == n);
        assert(states[u].transitions@[d].is_some());
    }
}

/// Lists of states with the same edges bring every input to the same state,
/// with the same outputs of the edges.
pub proof fn lemma_same_edges(states: Seq<State>, after: Seq<State>, u: int, w: Seq<I>)
    requires
        after.len() == states.len(),
        forall|v: int| 0 <= v < states.len() ==> (#[trigger] after[v]).transitions == states[v].transitions,
    ensures
        lands(after, u, w) == lands(states, u, w),
        path_out(after, u, w) == path_out(states, u, w),
    decreases w.len(),
{
    if 0 <= u < states.len() && w.len() > 0 {
        assert(after[u].transitions == states[u].transitions);
        match edge_of(states, u, w[0] as int) {
            None => {},
            Some(e) => {
                lemma_same_edges(states, after, target_of(e.target), w.drop_first());
            },
        }
    }
}


/// Cutting the output of an edge and pushing the rest back into its child
/// leaves a tree a tree.
pub proof fn lemma_cut_tree(states: Seq<State>, after: Seq<State>, n: nat, s: int, c: int, cut: int)
    requires
        states_wf(states, n),
        is_tree(states),
        0 <= s < states.len(),
        0 <= c < n,
        states[s].transitions@[c].is_some(),
        same_but(
            states,
            after,
            s,
            target_of(states[s].transitions@[c].unwrap().target),
        ),
        edge_cut(states[s], after[s], c, cut),
        pushed_back(
            states[target_of(states[s].transitions@[c].unwrap().target)],
            after[target_of(states[s].transitions@[c].unwrap().target)],
            states[s].transitions@[c].unwrap().output@.subrange(
                cut,
                states[s].transitions@[c].unwrap().output@.len() as int,
            ),
        ),
    ensures
        states_wf(after, n),
        is_tree(after),
        forall|u: int, d: int|
            0 <= u < states.len() && 0 <= d < n ==> match (
                #[trigger] states[u].transitions@[d],
                after[u].transitions@[d],
            ) {
                (None, None) => true,
                (Some(e), Some(f)) => f.target == e.target,
                _ => false,
            },
{
    let t = target_of(states[s].transitions@[c].unwrap().target);
    assert(t > s);
    assert forall|u: int, d: int| 0 <= u < states.len() && 0 <= d < n implies match (
        #[trigger] states[u].transitions@[d],
        after[u].transitions@[d],
    ) {
        (None, None) => true,
        (Some(e), Some(f)) => f.target == e.target,
        _ => false,
    } by {
        assert(states[u].transitions@.len() == n);
        if u == s {
            if d != c {
                assert(after[s].transitions@[d] == states[s].transitions@[d]);
            }
        } else if u == t {
        } else {
            assert(after[u] == states[u]);
        }
    }
    assert forall|u: int| 0 <= u < after.len() implies (#[trigger] after[u]).transitions@.len() == n
        && !(after[u].output is Rejecting) by {
        assert(states[u].transitions@.len() == n);
        if u != s && u != t {
            assert(after[u] == states[u]);
        }
    }
    assert forall|u: int, d: int| 0 <= u < after.len() && 0 <= d < n implies match #[trigger] after[u].transitions@[d] {
        Some(e) => 0 <= target_of(e.target) < after.len() && (e.target is Strong ==> target_of(
            e.target,
        ) > u),
        None => true,
    } by {
        assert(match (states[u].transitions@[d], after[u].transitions@[d]) {
            (None, None) => true,
            (Some(e), Some(f)) => f.target == e.target,
            _ => false,
        });
    }
    assert forall|u: int, d: int|
        0 <= u < after.len() && 0 <= d < after[u].transitions@.len() implies match #[trigger] after[u].transitions@[d] {
        Some(e) => e.target is Strong,
        None => true,
    } by {
        assert(after[u].transitions@.len() == n);
        assert(states[u].transitions@.len() == n);
        assert(match (states[u].transitions@[d], after[u].transitions@[d]) {
            (None, None) => true,
            (Some(e), Some(f)) => f.target == e.target,
            _ => false,
        });
    }
    assert forall|s1: int, c1: int, s2: int, c2: int|
        0 <= s1 < after.len() && 0 <= c1 < after[s1].transitions@.len() && 0 <= s2 < after.len()
            && 0 <= c2 < after[s2].transitions@.len() && (
        #[trigger] after[s1].transitions@[c1]).is_some() && (
        #[trigger] after[s2].transitions@[c2]).is_some() && target_of(
            after[s1].transitions@[c1].unwrap().target,
        ) == target_of(after[s2].transitions@[c2].unwrap().target) implies s1 == s2 && c1
        == c2 by {
        assert(after[s1].transitions@.len() == n);
        assert(after[s2].transitions@.len() == n);
        assert(states[s1].transitions@.len() == n);
        assert(states[s2].transitions@.len() == n);
        assert(match (states[s1].transitions@[c1], after[s1].transitions@[c1]) {
            (None, None) => true,
            (Some(e), Some(f)) => f.target == e.target,
            _ => false,
        });
        assert(match (states[s2].transitions@[c2], after[s2].transitions@[c2]) {
            (None, None) => true,
            (Some(e), Some(f)) => f.target == e.target,
            _ => false,
        });
    }
}

impl Link {
    /// The index of the state that the link leads to.
    pub fn get(&self) -> (r: usize)
        ensures
            r == target_of(*self),
    {
        match self {
            Link::Weak(w) => *w,
            Link::Strong(s) => *s,
        }
    }
}

impl Edge {
    /// The edge with the given output to the child at `target`.
    pub fn new(output: Sequence<u8>, target: usize) -> (r: Self)
        ensures
            r.output == output,
            r.target == Link::Strong(target),
    {
        Edge { output, target: Link::Strong(target) }
    }
}

impl Kind {
    /// Puts `prefix` in front of the output of an accepting state.
    pub fn mutate(&mut self, prefix: &[u8])
        ensures
            accepted(*final(self)) == prefixed(prefix@, accepted(*old(self))),
            (*final(self) is Rejecting) == (*old(self) is Rejecting),
            (*final(self) is Unknown) == (*old(self) is Unknown),
    {
        let mut taken = Kind::Unknown;
        core::mem::swap(&mut taken, self);
        match taken {
            Kind::Accepting(mut s) => {
                s.prepend_slice(prefix);
                *self = Kind::Accepting(s);
            },
            Kind::Rejecting => {
                *self = Kind::Rejecting;
            },
            Kind::Unknown => {},
        }
    }
}

impl State {
    /// The state that says nothing and has no edges, for an alphabet of
    /// `alphabet_size` symbols.
    pub fn new(alphabet_size: usize) -> (r: Self)
        ensures
            r.output is Unknown,
            r.transitions@.len() == alphabet_size,
            forall|d: int| 0 <= d < alphabet_size ==> (#[trigger] r.transitions@[d]).is_none(),
    {
        let mut transitions: Vec<Option<Edge>> = Vec::with_capacity(alphabet_size);
        let mut d: usize = 0;
        while d < alphabet_size
            invariant
                d <= alphabet_size,
                transitions@.len() == d,
                forall|x: int| 0 <= x < d ==> (#[trigger] transitions@[x]).is_none(),
            decreases alphabet_size - d,
        {
            transitions.push(None);
            d = d + 1;
        }
        State { output: Kind::Unknown, transitions }
    }

    /// Puts `prefix` in front of the output of every edge and of the output
    /// with which the state accepts.
    pub fn pushback(&mut self, prefix: &[u8])
        ensures
            pushed_back(*old(self), *final(self), prefix@),
    {
        let n = self.transitions.len();
        let mut d: usize = 0;
        while d < n
            invariant
                d <= n,
                n == old(self).transitions@.len(),
                self.transitions@.len() == n,
                self.output == old(self).output,
                forall|x: int|
                    0 <= x < d ==> match (
                        #[trigger] old(self).transitions@[x],
                        self.transitions@[x],
                    ) {
                        (None, None) => true,
                        (Some(e), Some(f)) => f.target == e.target && f.output@ == prefix@
                            + e.output@,
                        _ => false,
                    },
                forall|x: int|
                    d <= x < n ==> #[trigger] self.transitions@[x] == old(self).transitions@[x],
            decreases n - d,
        {
            let mut slot: Option<Edge> = None;
            core::mem::swap(&mut slot, &mut self.transitions[d]);
            match slot {
                Some(e) => {
                    let mut e = e;
                    e.output.prepend_slice(prefix);
                    self.transitions[d] = Some(e);
                },
                None => {},
            }
            d = d + 1;
        }
        self.output.mutate(prefix);
    }
}

/// The indices of the symbols in the alphabet.
pub open spec fn embedded(alphabet: Seq<A>, symbols: Seq<A>) -> Seq<I> {
    symbols.map_values(|c: A| alphabet.index_of(c) as usize)
}

/// A prefix tree transducer: it holds samples of a function from strings to
/// strings, and gives for every input of a sample its output. The state 0 is
/// the root.
#[derive(Debug)]
pub struct PTT {
    pub alphabet: IntEmbedding,
    pub states: Vec<State>,
}

impl PTT {
    /// Whether the states make a transducer over the alphabet; see `states_wf`.
    pub open spec fn wf(&self) -> bool {
        states_wf(self.states@, self.alphabet@.len())
    }

    /// Whether the transducer is a tree; see `is_tree`.
    pub open spec fn is_prefix_tree(&self) -> bool {
        self.wf() && is_tree(self.states@)
    }

    /// What the transducer gives for the word, where the symbols of the word
    /// are given by their indices in the alphabet.
    pub open spec fn output_for(&self, word: Seq<I>) -> Option<Seq<u8>> {
        ptt_out(self.states@, 0, word)
    }

    /// The transducer that gives nothing for any input.
    pub fn new(alphabet: IntEmbedding) -> (r: Self)
        ensures
            r.is_prefix_tree(),
            onward(r.states@),
            r.alphabet@ == alphabet@,
            forall|w: Seq<I>| (#[trigger] r.output_for(w)).is_none(),
            plain(r.states@),
    {
        let n = alphabet.len();
        let mut states: Vec<State> = Vec::new();
        states.push(State::new(n));
        let r = PTT { alphabet, states };
        proof {
            assert forall|w: Seq<I>| (#[trigger] r.output_for(w)).is_none() by {
                if w.len() > 0 {
                    if 0 <= w[0] < n {
                        assert(r.states@[0].transitions@[w[0] as int].is_none());
                    }
                }
            }
        }
        r
    }
}


/// Whether the state gives any output: it accepts, or an edge leaves it.
pub open spec fn has_output(state: State) -> bool {
    accepted(state.output).is_some() || exists|d: int|
        0 <= d < state.transitions@.len() && (#[trigger] state.transitions@[d]).is_some()
}

/// Whether every output of the state, that with which it accepts and those of
/// its edges, begins with the byte `b`.
pub open spec fn all_start_with(state: State, b: u8) -> bool {
    &&& match accepted(state.output) {
        Some(o) => o.len() > 0 && o[0] == b,
        None => true,
    }
    &&& forall|d: int|
        0 <= d < state.transitions@.len() ==> match #[trigger] state.transitions@[d] {
            Some(e) => e.output@.len() > 0 && e.output@[0] == b,
            None => true,
        }
}

/// Whether the state is onward: it gives output, and its outputs have no first
/// byte in common, so that nothing of them could stand on the edge that leads
/// to the state instead.
pub open spec fn onward_state(state: State) -> bool {
    has_output(state) && forall|b: u8| !all_start_with(state, b)
}

/// Whether every state but the root is onward.
pub open spec fn onward(states: Seq<State>) -> bool {
    forall|s: int| 1 <= s < states.len() ==> onward_state(#[trigger] states[s])
}

/// Whether the state `cur` can become onward by an output that goes on with
/// `rest`: no first byte that its outputs have in common is the first byte of
/// `rest`, and if it gives no output yet, `rest` is empty.
pub open spec fn nearly_onward(state: State, rest: Seq<u8>) -> bool {
    &&& has_output(state) ==> forall|b: u8|
        all_start_with(state, b) ==> rest.len() == 0 || rest[0] != b
    &&& !has_output(state) ==> rest.len() == 0
}

/// What a step of an insertion along an edge that is there does to the onward
/// states: the state that the step leaves is onward, and the state that it
/// enters can become onward by what is left of the output.
pub proof fn lemma_onward_cut(
    states: Seq<State>,
    after: Seq<State>,
    n: nat,
    s: int,
    c: int,
    cut: int,
    rest: Seq<u8>,
)
    requires
        states_wf(states, n),
        is_tree(states),
        0 <= s < states.len(),
        0 <= c < n,
        states[s].transitions@[c].is_some(),
        same_but(states, after, s, target_of(states[s].transitions@[c].unwrap().target)),
        edge_cut(states[s], after[s], c, cut),
        pushed_back(
            states[target_of(states[s].transitions@[c].unwrap().target)],
            after[target_of(states[s].transitions@[c].unwrap().target)],
            states[s].transitions@[c].unwrap().output@.subrange(
                cut,
                states[s].transitions@[c].unwrap().output@.len() as int,
            ),
        ),
        cut <= rest.len(),
        forall|i: int| 0 <= i < cut ==> states[s].transitions@[c].unwrap().output@[i] == rest[i],
        cut == states[s].transitions@[c].unwrap().output@.len() || cut == rest.len()
            || states[s].transitions@[c].unwrap().output@[cut] != rest[cut],
        forall|u: int| 1 <= u < states.len() && u != s ==> onward_state(#[trigger] states[u]),
        s >= 1 ==> nearly_onward(states[s], rest),
    ensures
        forall|u: int|
            1 <= u < after.len() && u != target_of(states[s].transitions@[c].unwrap().target)
                ==> onward_state(#[trigger] after[u]),
        nearly_onward(
            after[target_of(states[s].transitions@[c].unwrap().target)],
            rest.subrange(cut, rest.len() as int),
        ),
{
    let e = states[s].transitions@[c].unwrap();
    let t = target_of(e.target);
    let suffix = e.output@.subrange(cut, e.output@.len() as int);
    let rest2 = rest.subrange(cut, rest.len() as int);
    assert(t > s);
    assert(states[s].transitions@.len() == n);
    assert(states[t].transitions@.len() == n);
    assert(onward_state(states[t]));
    // the state that the step leaves
    if s >= 1 {
        assert(has_output(after[s])) by {
            assert(after[s].transitions@[c].is_some());
        }
        assert forall|b: u8| !all_start_with(after[s], b) by {
            if all_start_with(after[s], b) {
                let p = after[s].transitions@[c].unwrap().output@;
                assert(p.len() > 0 && p[0] == b);
                assert(e.output@[0] == rest[0]);
                assert(p[0] == e.output@[0]);
                assert(has_output(states[s])) by {
                    assert(states[s].transitions@[c].is_some());
                }
                assert(all_start_with(states[s], b)) by {
                    assert forall|d: int|
                        0 <= d
                            < states[s].transitions@.len() implies match #[trigger] states[s].transitions@[d] {
                        Some(x) => x.output@.len() > 0 && x.output@[0] == b,
                        None => true,
                    } by {
                        if d != c {
                            assert(after[s].transitions@[d] == states[s].transitions@[d]);
                        }
                    }
                }
            }
        }
    }
    // the states that the step does not touch
    assert forall|u: int| 1 <= u < after.len() && u != t implies onward_state(
        #[trigger] after[u],
    ) by {
        if u != s {
            assert(after[u] == states[u]);
        }
    }
    // the state that the step enters
    assert(has_output(after[t])) by {
        if accepted(states[t].output).is_some() {
        } else {
            let d = choose|d: int|
                0 <= d < states[t].transitions@.len() && (
                #[trigger] states[t].transitions@[d]).is_some();
            assert(after[t].transitions@[d].is_some());
        }
    }
    assert forall|b: u8| all_start_with(after[t], b) implies rest2.len() == 0 || rest2[0]
        != b by {
        if suffix.len() > 0 {
            // every output of the state begins with the first byte of what was
            // pushed back, which is not how the output goes on
            assert(suffix[0] == e.output@[cut]);
            if accepted(states[t].output).is_some() {
                let o = accepted(after[t].output).unwrap();
                assert(o[0] == suffix[0]);
            } else {
                let d = choose|d: int|
                    0 <= d < states[t].transitions@.len() && (
                    #[trigger] states[t].transitions@[d]).is_some();
                let f = after[t].transitions@[d].unwrap();
                assert(f.output@[0] == suffix[0]);
            }
            if rest2.len() > 0 {
                assert(rest2[0] == rest[cut]);
            }
        } else {
            assert(all_start_with(states[t], b)) by {
                match accepted(states[t].output) {
                    Some(o) => {
                        assert(suffix + o =~= o);
                    },
                    None => {},
                }
                assert forall|d: int|
                    0 <= d
                        < states[t].transitions@.len() implies match #[trigger] states[t].transitions@[d] {
                    Some(x) => x.output@.len() > 0 && x.output@[0] == b,
                    None => true,
                } by {
                    match states[t].transitions@[d] {
                        Some(x) => {
                            assert(suffix + x.output@ =~= x.output@);
                            assert(after[t].transitions@[d].unwrap().output@ == x.output@);
                        },
                        None => {},
                    }
                }
            }
        }
    }
}

/// What a step of an insertion along a new edge does to the onward states: the
/// state that the step leaves is onward, and the new state gives no output.
pub proof fn lemma_onward_add(
    states: Seq<State>,
    after: Seq<State>,
    n: nat,
    s: int,
    c: int,
    rest: Seq<u8>,
)
    requires
        states_wf(states, n),
        edge_added(states, after, s, c),
        after[s].transitions@[c].unwrap().output@ == rest,
        forall|u: int| 1 <= u < states.len() && u != s ==> onward_state(#[trigger] states[u]),
        s >= 1 ==> nearly_onward(states[s], rest),
    ensures
        forall|u: int| 1 <= u < states.len() ==> onward_state(#[trigger] after[u]),
        !has_output(after[states.len() as int]),
{
    let f = states.len() as int;
    assert(states[s].transitions@.len() == n);
    if s >= 1 {
        assert(has_output(after[s])) by {
            assert(after[s].transitions@[c].is_some());
        }
        assert forall|b: u8| !all_start_with(after[s], b) by {
            if all_start_with(after[s], b) {
                let p = after[s].transitions@[c].unwrap().output@;
                assert(p.len() > 0 && p[0] == b);
                if has_output(states[s]) {
                    assert(all_start_with(states[s], b)) by {
                        assert forall|d: int|
                            0 <= d
                                < states[s].transitions@.len() implies match #[trigger] states[s].transitions@[d] {
                            Some(x) => x.output@.len() > 0 && x.output@[0] == b,
                            None => true,
                        } by {
                            if d != c {
                                assert(after[s].transitions@[d] == states[s].transitions@[d]);
                            }
                        }
                    }
                }
            }
        }
    }
    assert forall|u: int| 1 <= u < states.len() implies onward_state(#[trigger] after[u]) by {
        if u != s {
            assert(after[u] == states[u]);
        }
    }
    assert(!has_output(after[f])) by {
        if exists|d: int|
            0 <= d < after[f].transitions@.len() && (#[trigger] after[f].transitions@[d]).is_some() {
            let d = choose|d: int|
                0 <= d < after[f].transitions@.len() && (
                #[trigger] after[f].transitions@[d]).is_some();
            assert(after[f].transitions@[d].is_none());
        }
    }
}

/// Whether every byte is below 0x80, so that it is a character by itself.
pub open spec fn ascii(b: Seq<u8>) -> bool {
    forall|i: int| 0 <= i < b.len() ==> #[trigger] b[i] < 0x80
}

/// Whether every output of the state, those of its edges and the one with
/// which it accepts, holds bytes below 0x80 only.
pub open spec fn plain_state(state: State) -> bool {
    &&& forall|d: int|
        0 <= d < state.transitions@.len() ==> match #[trigger] state.transitions@[d] {
            Some(e) => ascii(e.output@),
            None => true,
        }
    &&& match accepted(state.output) {
        Some(o) => ascii(o),
        None => true,
    }
}

/// Whether every output of every state holds bytes below 0x80 only.
pub open spec fn plain(states: Seq<State>) -> bool {
    forall|s: int| 0 <= s < states.len() ==> plain_state(#[trigger] states[s])
}

/// Bytes below 0x80 are a string.
pub proof fn lemma_ascii_text(b: Seq<u8>)
    requires
        ascii(b),
    ensures
        vstd::utf8::valid_utf8(b),
    decreases b.len(),
{
    if b.len() > 0 {
        assert(b[0] < 0x80);
        let x = b[0];
        assert(vstd::utf8::is_leading_byte_width_1(x));
        assert(x < 0x80 ==> (x & 0x7F) < 0x80) by (bit_vector);
        assert(vstd::utf8::valid_first_scalar(b));
        let rest = vstd::utf8::pop_first_scalar(b);
        assert(rest =~= b.subrange(1, b.len() as int));
        assert forall|i: int| 0 <= i < rest.len() implies #[trigger] rest[i] < 0x80 by {
            assert(rest[i] == b[i + 1]);
        }
        lemma_ascii_text(rest);
    }
}

/// What a step of an insertion makes of a transducer whose outputs hold
/// bytes below 0x80 only, for an output of such bytes, holds such bytes
/// only: cutting an output, pushing the rest back and adding an edge bring
/// no other bytes in.
pub proof fn lemma_develop_plain(
    before: Seq<State>,
    after: Seq<State>,
    cur: int,
    c: int,
    rest: Seq<u8>,
    taken: int,
)
    requires
        plain(before),
        ascii(rest),
        0 <= cur < before.len(),
        0 <= c < before[cur].transitions@.len(),
        0 <= taken <= rest.len(),
        edge_of(after, cur, c).is_some(),
        edge_of(after, cur, c).unwrap().output@ == rest.subrange(0, taken),
        match before[cur].transitions@[c] {
            Some(e) => 0 <= target_of(e.target) < before.len() && same_but(
                before,
                after,
                cur,
                target_of(e.target),
            ) && edge_cut(before[cur], after[cur], c, taken) && pushed_back(
                before[target_of(e.target)],
                after[target_of(e.target)],
                e.output@.subrange(taken, e.output@.len() as int),
            ),
            None => edge_added(before, after, cur, c),
        },
    ensures
        plain(after),
{
    assert forall|u: int| 0 <= u < after.len() implies plain_state(#[trigger] after[u]) by {
        match before[cur].transitions@[c] {
            Some(e) => {
                let t = target_of(e.target);
                let tail = e.output@.subrange(taken, e.output@.len() as int);
                assert(plain_state(before[cur]));
                assert(ascii(e.output@));
                assert(ascii(tail)) by {
                    assert forall|i: int| 0 <= i < tail.len() implies #[trigger] tail[i]
                        < 0x80 by {
                        assert(tail[i] == e.output@[taken + i]);
                    }
                }
                if u == t {
                    assert(plain_state(before[t]));
                    assert forall|d: int| 0 <= d < after[u].transitions@.len() implies match #[trigger] after[u].transitions@[d] {
                        Some(f) => ascii(f.output@),
                        None => true,
                    } by {
                        match (before[t].transitions@[d], after[t].transitions@[d]) {
                            (Some(e0), Some(f)) => {
                                assert(f.output@ == tail + e0.output@);
                                assert(ascii(e0.output@));
                            },
                            _ => {},
                        }
                    }
                } else if u == cur {
                    assert forall|d: int| 0 <= d < after[u].transitions@.len() implies match #[trigger] after[u].transitions@[d] {
                        Some(f) => ascii(f.output@),
                        None => true,
                    } by {
                        if d != c {
                            assert(after[cur].transitions@[d] == before[cur].transitions@[d]);
                        }
                    }
                } else {
                    assert(after[u] == before[u]);
                }
            },
            None => {
                if u == before.len() {
                    assert forall|d: int| 0 <= d < after[u].transitions@.len() implies match #[trigger] after[u].transitions@[d] {
                        Some(f) => ascii(f.output@),
                        None => true,
                    } by {
                        assert(after[before.len() as int].transitions@[d].is_none());
                    }
                } else if u == cur {
                    assert(plain_state(before[cur]));
                    assert forall|d: int| 0 <= d < after[u].transitions@.len() implies match #[trigger] after[u].transitions@[d] {
                        Some(f) => ascii(f.output@),
                        None => true,
                    } by {
                        if d != c {
                            assert(after[cur].transitions@[d] == before[cur].transitions@[d]);
                        }
                    }
                } else {
                    assert(after[u] == before[u]);
                }
            },
        }
    }
}

/// Leading an edge to another state brings no other bytes in.
pub proof fn lemma_redirected_plain(states: Seq<State>, after: Seq<State>, p: int, i: int, r: int)
    requires
        redirected(states, after, p, i, r),
        plain(states),
    ensures
        plain(after),
{
    assert forall|u: int| 0 <= u < after.len() implies plain_state(#[trigger] after[u]) by {
        assert(plain_state(states[u]));
        if u == p {
            assert forall|d: int| 0 <= d < after[u].transitions@.len() implies match #[trigger] after[u].transitions@[d] {
                Some(f) => ascii(f.output@),
                None => true,
            } by {
                if d != i {
                    assert(after[p].transitions@[d] == states[p].transitions@[d]);
                } else {
                    assert(states[p].transitions@[i].is_some());
                }
            }
        } else {
            assert(after[u] == states[u]);
        }
    }
}

impl PTT {
    /// Makes the edge that leaves the state `cur` on the symbol `c` fit an
    /// output that goes on with `rest`, and returns the state to which the edge
    /// leads with the number of bytes of `rest` that the edge gives. Where there
    /// is no such edge, a new one to a new state gives all of `rest`. Where
    /// there is one, it keeps of its output what it has in common with `rest`,
    /// and what is left of it is pushed back into the state behind it. What the
    /// transducer gives stays as it is.
    pub fn develop(&mut self, cur: usize, c: usize, rest: &[u8]) -> (r: (usize, usize))
        requires
            old(self).is_prefix_tree(),
            cur < old(self).states@.len(),
            c < old(self).alphabet@.len(),
        ensures
            final(self).is_prefix_tree(),
            final(self).alphabet == old(self).alphabet,
            final(self).states@.len() >= old(self).states@.len(),
            forall|w: Seq<I>| #[trigger]
                ptt_out(final(self).states@, 0, w) == ptt_out(old(self).states@, 0, w),
            forall|w: Seq<I>|
                lands(old(self).states@, 0, w) == Some(cur as int) ==> #[trigger] lands(
                    final(self).states@,
                    0,
                    w,
                ) == Some(cur as int) && path_out(final(self).states@, 0, w) == path_out(
                    old(self).states@,
                    0,
                    w,
                ),
            r.0 < final(self).states@.len(),
            r.1 <= rest@.len(),
            edge_of(final(self).states@, cur as int, c as int).is_some(),
            target_of(edge_of(final(self).states@, cur as int, c as int).unwrap().target) == r.0,
            edge_of(final(self).states@, cur as int, c as int).unwrap().output@ == rest@.subrange(
                0,
                r.1 as int,
            ),
            match old(self).states@[cur as int].transitions@[c as int] {
                Some(e) => same_but(
                    old(self).states@,
                    final(self).states@,
                    cur as int,
                    target_of(e.target),
                ) && edge_cut(
                    old(self).states@[cur as int],
                    final(self).states@[cur as int],
                    c as int,
                    r.1 as int,
                ) && pushed_back(
                    old(self).states@[target_of(e.target)],
                    final(self).states@[target_of(e.target)],
                    e.output@.subrange(r.1 as int, e.output@.len() as int),
                ) && r.0 == target_of(e.target) && (forall|i: int|
                    0 <= i < r.1 ==> e.output@[i] == rest@[i]) && (r.1 == e.output@.len() || r.1
                    == rest@.len() || e.output@[r.1 as int] != rest@[r.1 as int]),
                None => edge_added(old(self).states@, final(self).states@, cur as int, c as int)
                    && r.0 == old(self).states@.len() && r.1 == rest@.len(),
            },
    {
        let ghost before = self.states@;
        let ghost n = self.alphabet@.len();
        assert(before[cur as int].transitions@.len() == n);
        let mut slot: Option<Edge> = None;
        core::mem::swap(&mut slot, &mut self.states[cur].transitions[c]);
        match slot {
            Some(e) => {
                let mut e = e;
                let ghost old_edge = e;
                assert(before[cur as int].transitions@[c as int] == Some(old_edge));
                let common = e.output.lcp(rest);
                let suffix = e.output.cut_off(common);
                let t = e.target.get();
                assert(t > cur && t < before.len());
                self.states[cur].transitions[c] = Some(e);
                self.states[t].pushback(suffix.as_slice());
                proof {
                    let after = self.states@;
                    assert(after[cur as int].transitions@[c as int] == Some(e));
                    assert(same_but(before, after, cur as int, t as int));
                    assert(edge_cut(before[cur as int], after[cur as int], c as int, common as int));
                    lemma_cut_tree(before, after, n, cur as int, c as int, common as int);
                    assert forall|w: Seq<I>| #[trigger]
                        ptt_out(after, 0, w) == ptt_out(before, 0, w) by {
                        lemma_cut(before, after, n, cur as int, c as int, common as int, 0, w);
                    }
                    assert forall|w: Seq<I>| lands(before, 0, w) == Some(cur as int) implies #[trigger] lands(
                        after,
                        0,
                        w,
                    ) == Some(cur as int) && path_out(after, 0, w) == path_out(before, 0, w) by {
                        lemma_frame(before, after, n, cur as int, 0, w);
                    }
                    assert(e.output@ =~= rest@.subrange(0, common as int));
                }
                (t, common)
            },
            None => {
                let f = self.states.len();
                let size = self.alphabet.len();
                self.states[cur].transitions[c] = Some(Edge::new(Sequence::from(rest), f));
                self.states.push(State::new(size));
                let total = self.states.len();
                proof {
                    let after = self.states@;
                    assert(before[cur as int].transitions@[c as int].is_none());
                    assert(edge_added(before, after, cur as int, c as int));
                    lemma_edge_added_tree(before, after, n, cur as int, c as int);
                    assert forall|w: Seq<I>| #[trigger]
                        ptt_out(after, 0, w) == ptt_out(before, 0, w) by {
                        lemma_edge_added(before, after, n, cur as int, c as int, 0, w);
                    }
                    assert forall|w: Seq<I>| lands(before, 0, w) == Some(cur as int) implies #[trigger] lands(
                        after,
                        0,
                        w,
                    ) == Some(cur as int) && path_out(after, 0, w) == path_out(before, 0, w) by {
                        lemma_edge_added_frame(before, after, n, cur as int, c as int, 0, w);
                    }
                    assert(rest@.subrange(0, rest@.len() as int) =~= rest@);
                }
                (f, rest.len())
            },
        }
    }

    /// Teaches the transducer to give `output` for `word`, where the symbols of
    /// the word are given by their indices in the alphabet. If it gives another
    /// output for the word already, nothing is learnt, and that output is
    /// returned.
    pub fn insert_word(&mut self, word: &[I], output: &[u8]) -> (r: Result<(), Vec<u8>>)
        requires
            old(self).is_prefix_tree(),
            forall|i: int| 0 <= i < word@.len() ==> #[trigger] word@[i] < old(self).alphabet@.len(),
        ensures
            final(self).is_prefix_tree(),
            final(self).alphabet == old(self).alphabet,
            onward(old(self).states@) && r.is_ok() ==> onward(final(self).states@),
            plain(old(self).states@) && ascii(output@) ==> plain(final(self).states@),
            match old(self).output_for(word@) {
                Some(z) if z != output@ => r.is_err() && r.unwrap_err()@ == z && forall|
                    w: Seq<I>,
                | #[trigger]
                    final(self).output_for(w) == old(self).output_for(w),
                _ => r.is_ok() && forall|w: Seq<I>| #[trigger]
                    final(self).output_for(w) == if w == word@ {
                        Some(output@)
                    } else {
                        old(self).output_for(w)
                    },
            },
    {
        let ghost orig = self.states@;
        let ghost n = self.alphabet@.len();
        let mut cur: usize = 0;
        let mut offset: usize = 0;
        let mut k: usize = 0;
        proof {
            assert(word@.subrange(0, 0) =~= Seq::<I>::empty());
            assert(output@.subrange(0, 0) =~= Seq::<u8>::empty());
        }
        while k < word.len()
            invariant
                k <= word.len(),
                offset <= output.len(),
                self.is_prefix_tree(),
                self.alphabet == old(self).alphabet,
                n == self.alphabet@.len(),
                orig == old(self).states@,
                cur < self.states@.len(),
                forall|i: int| 0 <= i < word@.len() ==> #[trigger] word@[i] < n,
                forall|w: Seq<I>| #[trigger] ptt_out(self.states@, 0, w) == ptt_out(orig, 0, w),
                lands(self.states@, 0, word@.subrange(0, k as int)) == Some(cur as int),
                path_out(self.states@, 0, word@.subrange(0, k as int)) == output@.subrange(
                    0,
                    offset as int,
                ),
                onward(orig) ==> forall|u: int|
                    1 <= u < self.states@.len() && u != cur ==> onward_state(
                        #[trigger] self.states@[u],
                    ),
                onward(orig) && cur >= 1 ==> nearly_onward(
                    self.states@[cur as int],
                    output@.subrange(offset as int, output@.len() as int),
                ),
                plain(orig) && ascii(output@) ==> plain(self.states@),
            decreases word.len() - k,
        {
            let c = word[k];
            let ghost before = self.states@;
            let ghost prefix_word = word@.subrange(0, k as int);
            let rest = vstd::slice::slice_subrange(output, offset, output.len());
            let (next, consumed) = self.develop(cur, c, rest);
            proof {
                let after = self.states@;
                assert(before[cur as int].transitions@.len() == n);
                if plain(orig) && ascii(output@) {
                    assert(ascii(rest@)) by {
                        assert forall|i: int| 0 <= i < rest@.len() implies #[trigger] rest@[i]
                            < 0x80 by {
                            assert(rest@[i] == output@[offset + i]);
                        }
                    }
                    match before[cur as int].transitions@[c as int] {
                        Some(e) => {
                            assert(0 <= target_of(e.target) < before.len());
                        },
                        None => {},
                    }
                    lemma_develop_plain(
                        before,
                        after,
                        cur as int,
                        c as int,
                        rest@,
                        consumed as int,
                    );
                }
                if onward(orig) {
                    match before[cur as int].transitions@[c as int] {
                        Some(e) => {
                            lemma_onward_cut(
                                before,
                                after,
                                n,
                                cur as int,
                                c as int,
                                consumed as int,
                                rest@,
                            );
                            assert(rest@.subrange(consumed as int, rest@.len() as int)
                                =~= output@.subrange(
                                offset + consumed,
                                output@.len() as int,
                            ));
                        },
                        None => {
                            assert(rest@.subrange(0, rest@.len() as int) =~= rest@);
                            lemma_onward_add(before, after, n, cur as int, c as int, rest@);
                            assert(output@.subrange(offset + consumed, output@.len() as int).len()
                                == 0);
                        },
                    }
                }
                assert(lands(after, 0, prefix_word) == Some(cur as int));
                assert(path_out(after, 0, prefix_word) == output@.subrange(0, offset as int));
                lemma_lands_push(after, 0, prefix_word, c);
                assert(word@.subrange(0, k + 1) =~= prefix_word.push(c));
                let e = edge_of(after, cur as int, c as int).unwrap();
                assert(output@.subrange(0, offset as int) + e.output@ =~= output@.subrange(
                    0,
                    offset + consumed,
                ));
                assert forall|w: Seq<I>| #[trigger] ptt_out(after, 0, w) == ptt_out(orig, 0, w) by {
                    assert(ptt_out(after, 0, w) == ptt_out(before, 0, w));
                    assert(ptt_out(before, 0, w) == ptt_out(orig, 0, w));
                }
            }
            cur = next;
            offset = offset + consumed;
            k = k + 1;
        }
        let rem = vstd::slice::slice_subrange(output, offset, output.len());
        let ghost before = self.states@;
        proof {
            assert(word@.subrange(0, k as int) =~= word@);
            lemma_out_by_path(before, 0, word@);
            assert(ptt_out(before, 0, word@) == ptt_out(orig, 0, word@));
            assert(output@.subrange(0, offset as int) + rem@ =~= output@);
            assert(!(before[cur as int].output is Rejecting));
        }
        let mut kind = Kind::Unknown;
        core::mem::swap(&mut kind, &mut self.states[cur].output);
        match kind {
            Kind::Accepting(s) => {
                if s.same(rem) {
                    self.states[cur].output = Kind::Accepting(s);
                    proof {
                        assert(self.states@ =~= before);
                        if onward(orig) && cur >= 1 {
                            assert(has_output(before[cur as int]));
                            assert forall|b: u8| !all_start_with(before[cur as int], b) by {}
                        }
                    }
                    Ok(())
                } else {
                    let mut existing = vstd::slice::slice_to_vec(
                        vstd::slice::slice_subrange(output, 0, offset),
                    );
                    let mut tail = vstd::slice::slice_to_vec(s.as_slice());
                    existing.append(&mut tail);
                    self.states[cur].output = Kind::Accepting(s);
                    proof {
                        assert(self.states@ =~= before);
                        assert(existing@ =~= output@.subrange(0, offset as int) + s@);
                        if existing@ == output@ {
                            assert(s@ =~= rem@);
                        }
                    }
                    Err(existing)
                }
            },
            Kind::Rejecting => {
                self.states[cur].output = Kind::Rejecting;
                Ok(())
            },
            Kind::Unknown => {
                self.states[cur].output = Kind::Accepting(Sequence::from(rem));
                proof {
                    let after = self.states@;
                    assert(before[cur as int].output is Unknown);
                    assert forall|v: int| 0 <= v < before.len() implies (
                    #[trigger] after[v]).transitions == before[v].transitions by {}
                    if plain(orig) && ascii(output@) {
                        assert forall|v: int| 0 <= v < after.len() implies plain_state(
                            #[trigger] after[v],
                        ) by {
                            assert(plain_state(before[v]));
                            assert(after[v].transitions == before[v].transitions);
                            if v == cur {
                                assert forall|i: int| 0 <= i < rem@.len() implies #[trigger] rem@[i]
                                    < 0x80 by {
                                    assert(rem@[i] == output@[offset + i]);
                                }
                            } else {
                                assert(after[v] == before[v]);
                            }
                        }
                    }
                    if onward(orig) {
                        assert forall|u: int| 1 <= u < after.len() implies onward_state(
                            #[trigger] after[u],
                        ) by {
                            if u != cur {
                                assert(after[u] == before[u]);
                            } else {
                                assert(has_output(after[u]));
                                assert forall|b: u8| !all_start_with(after[u], b) by {
                                    if all_start_with(after[u], b) {
                                        assert(rem@.len() > 0 && rem@[0] == b);
                                        if has_output(before[u]) {
                                            assert(all_start_with(before[u], b));
                                        }
                                    }
                                }
                            }
                        }
                    }
                    assert forall|w: Seq<I>| #[trigger]
                        ptt_out(after, 0, w) == if w == word@ {
                            Some(output@)
                        } else {
                            ptt_out(orig, 0, w)
                        } by {
                        lemma_same_edges(before, after, 0, w);
                        lemma_out_by_path(before, 0, w);
                        lemma_out_by_path(after, 0, w);
                        if lands(before, 0, w) == Some(cur as int) {
                            lemma_lands_unique(before, n, w, word@);
                        } else if lands(before, 0, w).is_some() {
                            lemma_lands_increasing(before, n, 0, w);
                            let v = lands(before, 0, w).unwrap();
                            assert(after[v] == before[v]);
                        }
                    }
                    assert(states_wf(after, n)) by {
                        assert forall|u: int| 0 <= u < after.len() implies (
                        #[trigger] after[u]).transitions@.len() == n && !(
                        after[u].output is Rejecting) by {
                            assert(before[u].transitions@.len() == n);
                        }
                        assert forall|u: int, d: int|
                            0 <= u < after.len() && 0 <= d < n implies match #[trigger] after[u].transitions@[d] {
                            Some(e) => 0 <= target_of(e.target) < after.len() && (
                            e.target is Strong ==> target_of(e.target) > u),
                            None => true,
                        } by {
                            assert(after[u].transitions == before[u].transitions);
                            assert(before[u].transitions@[d] == after[u].transitions@[d]);
                        }
                    }
                    assert(is_tree(after)) by {
                        assert forall|u: int, d: int|
                            0 <= u < after.len() && 0 <= d
                                < after[u].transitions@.len() implies match #[trigger] after[u].transitions@[d] {
                            Some(e) => e.target is Strong,
                            None => true,
                        } by {
                            assert(after[u].transitions == before[u].transitions);
                            assert(before[u].transitions@[d] == after[u].transitions@[d]);
                        }
                        assert forall|s1: int, c1: int, s2: int, c2: int|
                            0 <= s1 < after.len() && 0 <= c1 < after[s1].transitions@.len() && 0
                                <= s2 < after.len() && 0 <= c2 < after[s2].transitions@.len() && (
                            #[trigger] after[s1].transitions@[c1]).is_some() && (
                            #[trigger] after[s2].transitions@[c2]).is_some() && target_of(
                                after[s1].transitions@[c1].unwrap().target,
                            ) == target_of(
                                after[s2].transitions@[c2].unwrap().target,
                            ) implies s1 == s2 && c1 == c2 by {
                            assert(after[s1].transitions == before[s1].transitions);
                            assert(after[s2].transitions == before[s2].transitions);
                            assert(before[s1].transitions@[c1].is_some());
                            assert(before[s2].transitions@[c2].is_some());
                        }
                    }
                }
                Ok(())
            },
        }
    }
}


/// Whether the edges for the first `i` symbols of the states `red` and `blue`
/// agree: both have none, or both have one with the same output, and the
/// states behind them agree; see `folds`.
pub open spec fn folds_upto(states: Seq<State>, red: int, blue: int, i: nat) -> bool
    decreases states.len() - blue, i,
{
    if !(0 <= red < states.len() && 0 <= blue < states.len()) {
        false
    } else if i == 0 {
        true
    } else {
        &&& folds_upto(states, red, blue, (i - 1) as nat)
        &&& match (edge_of(states, blue, i - 1), edge_of(states, red, i - 1)) {
            (None, None) => true,
            (Some(b), Some(r)) => b.output@ == r.output@ && b.target is Strong && blue
                < target_of(b.target) < states.len() && folds(
                states,
                target_of(r.target),
                target_of(b.target),
            ),
            _ => false,
        }
    }
}

/// Whether the state `blue`, with the tree of its children behind it, looks
/// the same as the state `red`: both accept with the same output or do not
/// accept, and for every symbol both have no edge, or both have an edge with
/// the same output, and the state behind the edge of `blue`, which is a child,
/// looks the same as the state behind the edge of `red`.
pub open spec fn folds(states: Seq<State>, red: int, blue: int) -> bool
    decreases states.len() - blue,
        if 0 <= blue < states.len() {
            states[blue].transitions@.len() + 1
        } else {
            0
        },
{
    if !(0 <= red < states.len() && 0 <= blue < states.len()) {
        false
    } else {
        accepted(states[red].output) == accepted(states[blue].output) && folds_upto(
            states,
            red,
            blue,
            states[blue].transitions@.len(),
        ) && states[red].transitions@.len() == states[blue].transitions@.len()
    }
}

/// States that look the same agree on every edge.
pub proof fn lemma_folds_edge(states: Seq<State>, red: int, blue: int, i: nat, d: int)
    requires
        folds_upto(states, red, blue, i),
        0 <= d < i,
    ensures
        match (edge_of(states, blue, d), edge_of(states, red, d)) {
            (None, None) => true,
            (Some(b), Some(r)) => b.output@ == r.output@ && b.target is Strong && blue
                < target_of(b.target) < states.len() && folds(
                states,
                target_of(r.target),
                target_of(b.target),
            ),
            _ => false,
        },
    decreases i,
{
    if d < i - 1 {
        lemma_folds_edge(states, red, blue, (i - 1) as nat, d);
    }
}

/// States that look the same give the same output for every input.
pub proof fn lemma_folds_out(states: Seq<State>, red: int, blue: int, w: Seq<I>)
    requires
        folds(states, red, blue),
    ensures
        ptt_out(states, red, w) == ptt_out(states, blue, w),
    decreases w.len(),
{
    if w.len() > 0 {
        let d = w[0] as int;
        let n = states[blue].transitions@.len();
        if 0 <= d < n {
            lemma_folds_edge(states, red, blue, n, d);
            match (edge_of(states, blue, d), edge_of(states, red, d)) {
                (Some(b), Some(r)) => {
                    lemma_folds_out(states, target_of(r.target), target_of(b.target), w.drop_first());
                },
                _ => {},
            }
        }
    }
}

/// Whether `after` is `states` with the edge that leaves the state `p` on the
/// symbol `i` led to the state `r` instead.
pub open spec fn redirected(states: Seq<State>, after: Seq<State>, p: int, i: int, r: int) -> bool {
    &&& after.len() == states.len()
    &&& 0 <= p < states.len()
    &&& 0 <= i < states[p].transitions@.len()
    &&& forall|u: int| 0 <= u < states.len() && u != p ==> #[trigger] after[u] == states[u]
    &&& after[p].output == states[p].output
    &&& after[p].transitions@.len() == states[p].transitions@.len()
    &&& forall|d: int|
        0 <= d < states[p].transitions@.len() && d != i ==> #[trigger] after[p].transitions@[d]
            == states[p].transitions@[d]
    &&& states[p].transitions@[i].is_some()
    &&& after[p].transitions@[i].is_some()
    &&& after[p].transitions@[i].unwrap().output == states[p].transitions@[i].unwrap().output
    &&& after[p].transitions@[i].unwrap().target == Link::Weak(r as usize)
    &&& 0 <= r < states.len()
    &&& r <= usize::MAX
}

/// Leading an edge to a state that looks the same as the state to which it
/// led changes nothing of what the transducer gives.
pub proof fn lemma_redirected(
    states: Seq<State>,
    after: Seq<State>,
    p: int,
    i: int,
    r: int,
    u: int,
    w: Seq<I>,
)
    requires
        redirected(states, after, p, i, r),
        folds(states, r, target_of(states[p].transitions@[i].unwrap().target)),
    ensures
        ptt_out(after, u, w) == ptt_out(states, u, w),
    decreases w.len(),
{
    if 0 <= u < states.len() && w.len() > 0 {
        let d = w[0] as int;
        let rest = w.drop_first();
        if u == p {
            if d == i {
                let b = target_of(states[p].transitions@[i].unwrap().target);
                lemma_redirected(states, after, p, i, r, r, rest);
                lemma_folds_out(states, r, b, rest);
            } else if 0 <= d < states[p].transitions@.len() {
                match states[p].transitions@[d] {
                    None => {},
                    Some(e) => {
                        lemma_redirected(states, after, p, i, r, target_of(e.target), rest);
                    },
                }
            }
        } else {
            assert(after[u] == states[u]);
            match edge_of(states, u, d) {
                None => {},
                Some(e) => {
                    lemma_redirected(states, after, p, i, r, target_of(e.target), rest);
                },
            }
        }
    } else if 0 <= u < states.len() {
        if u != p {
            assert(after[u] == states[u]);
        }
    }
}

/// Whether the edges of the states `red` and `blue` for the symbol `d` agree;
/// see `folds`.
pub open spec fn edges_agree(states: Seq<State>, red: int, blue: int, d: int) -> bool {
    match (edge_of(states, blue, d), edge_of(states, red, d)) {
        (None, None) => true,
        (Some(b), Some(r)) => b.output@ == r.output@ && b.target is Strong && blue < target_of(
            b.target,
        ) < states.len() && folds(states, target_of(r.target), target_of(b.target)),
        _ => false,
    }
}

/// States whose edges agree for the first symbols look the same as far as
/// these symbols go.
pub proof fn lemma_folds_upto_intro(states: Seq<State>, red: int, blue: int, i: nat)
    requires
        0 <= red < states.len(),
        0 <= blue < states.len(),
        forall|d: int| 0 <= d < i ==> edges_agree(states, red, blue, d),
    ensures
        folds_upto(states, red, blue, i),
    decreases i,
{
    if i > 0 {
        lemma_folds_upto_intro(states, red, blue, (i - 1) as nat);
        assert(edges_agree(states, red, blue, i - 1));
    }
}

/// Two trees that look the same as one state look the same as each other.
pub proof fn lemma_folds_trans(states: Seq<State>, r: int, b: int, t: int)
    requires
        folds(states, r, b),
        folds(states, r, t),
    ensures
        folds(states, b, t),
    decreases states.len() - t,
{
    let n = states[t].transitions@.len();
    assert forall|d: int| 0 <= d < n implies edges_agree(states, b, t, d) by {
        lemma_folds_edge(states, r, t, n, d);
        lemma_folds_edge(states, r, b, states[b].transitions@.len(), d);
        match (edge_of(states, t, d), edge_of(states, r, d)) {
            (Some(te), Some(re)) => {
                let be = edge_of(states, b, d).unwrap();
                lemma_folds_trans(
                    states,
                    target_of(re.target),
                    target_of(be.target),
                    target_of(te.target),
                );
            },
            _ => {},
        }
    }
    lemma_folds_upto_intro(states, b, t, n);
}

/// Leading an edge to a state that looks the same as the state to which it
/// led makes no two states look the same that did not look the same before.
pub proof fn lemma_redirected_folds(
    states: Seq<State>,
    after: Seq<State>,
    p: int,
    i: int,
    r0: int,
    r: int,
    t: int,
)
    requires
        redirected(states, after, p, i, r0),
        folds(states, r0, target_of(states[p].transitions@[i].unwrap().target)),
        folds(after, r, t),
    ensures
        folds(states, r, t),
    decreases states.len() - t,
{
    let b = target_of(states[p].transitions@[i].unwrap().target);
    let n = after[t].transitions@.len();
    assert(states[t].transitions@.len() == n && states[r].transitions@.len()
        == after[r].transitions@.len() && accepted(states[t].output) == accepted(
        after[t].output,
    ) && accepted(states[r].output) == accepted(after[r].output)) by {
        if t != p {
            assert(after[t] == states[t]);
        }
        if r != p {
            assert(after[r] == states[r]);
        }
    }
    assert forall|d: int| 0 <= d < n implies edges_agree(states, r, t, d) by {
        lemma_folds_edge(after, r, t, n, d);
        // the edge of the tree is not the edge that was led elsewhere
        if t == p && d == i {
            assert(after[p].transitions@[i].unwrap().target is Weak);
        } else {
            assert(edge_of(after, t, d) == edge_of(states, t, d)) by {
                if t != p {
                    assert(after[t] == states[t]);
                } else {
                    assert(after[p].transitions@[d] == states[p].transitions@[d]);
                }
            }
            match (edge_of(after, t, d), edge_of(after, r, d)) {
                (Some(te), Some(re)) => {
                    let tc = target_of(te.target);
                    lemma_redirected_folds(states, after, p, i, r0, target_of(re.target), tc);
                    if r == p && d == i {
                        assert(target_of(re.target) == r0);
                        lemma_folds_trans(states, r0, b, tc);
                    } else {
                        assert(edge_of(after, r, d) == edge_of(states, r, d)) by {
                            if r != p {
                                assert(after[r] == states[r]);
                            } else {
                                assert(after[p].transitions@[d] == states[p].transitions@[d]);
                            }
                        }
                    }
                },
                (None, None) => {
                    if r == p && d == i {
                    } else {
                        assert(edge_of(after, r, d) == edge_of(states, r, d)) by {
                            if r != p {
                                assert(after[r] == states[r]);
                            } else {
                                assert(after[p].transitions@[d] == states[p].transitions@[d]);
                            }
                        }
                    }
                },
                _ => {},
            }
        }
    }
    lemma_folds_upto_intro(states, r, t, n);
}

/// Whether no state of the list looks the same as a state before it in the
/// list.
pub open spec fn irreducible(states: Seq<State>, red: Seq<usize>) -> bool {
    forall|i: int, j: int|
        0 <= i < j < red.len() ==> !folds(states, (#[trigger] red[i]) as int, (#[trigger] red[j]) as int)
}

/// Leading an edge to another state leaves the onward states onward.
pub proof fn lemma_redirected_onward(states: Seq<State>, after: Seq<State>, p: int, i: int, r: int)
    requires
        redirected(states, after, p, i, r),
        onward(states),
    ensures
        onward(after),
{
    assert forall|s: int| 1 <= s < after.len() implies onward_state(#[trigger] after[s]) by {
        assert(onward_state(states[s]));
        if s != p {
            assert(after[s] == states[s]);
        } else {
            assert(has_output(after[p])) by {
                assert(after[p].transitions@[i].is_some());
            }
            assert forall|b: u8| !all_start_with(after[p], b) by {
                if all_start_with(after[p], b) {
                    assert(all_start_with(states[p], b)) by {
                        assert forall|d: int|
                            0 <= d
                                < states[p].transitions@.len() implies match #[trigger] states[p].transitions@[d] {
                            Some(x) => x.output@.len() > 0 && x.output@[0] == b,
                            None => true,
                        } by {
                            if d != i {
                                assert(after[p].transitions@[d] == states[p].transitions@[d]);
                            } else {
                                assert(after[p].transitions@[i].unwrap().output
                                    == states[p].transitions@[i].unwrap().output);
                            }
                        }
                    }
                }
            }
        }
    }
}

/// Leading an edge to another state leaves a transducer a transducer.
pub proof fn lemma_redirected_wf(
    states: Seq<State>,
    after: Seq<State>,
    n: nat,
    p: int,
    i: int,
    r: int,
)
    requires
        states_wf(states, n),
        redirected(states, after, p, i, r),
    ensures
        states_wf(after, n),
        forall|u: int, d: int|
            0 <= u < states.len() && 0 <= d < n ==> (#[trigger] after[u].transitions@[d]).is_some()
                == states[u].transitions@[d].is_some(),
        forall|u: int, d: int|
            0 <= u < states.len() && 0 <= d < n && (u != p || d != i) ==> #[trigger] after[u].transitions@[d]
                == states[u].transitions@[d],
{
    assert(states[p].transitions@.len() == n);
    assert forall|u: int, d: int| 0 <= u < states.len() && 0 <= d < n && (u != p || d
        != i) implies #[trigger] after[u].transitions@[d] == states[u].transitions@[d] by {
        if u != p {
            assert(after[u] == states[u]);
        }
    }
    assert forall|u: int| 0 <= u < after.len() implies (#[trigger] after[u]).transitions@.len() == n
        && !(after[u].output is Rejecting) by {
        assert(states[u].transitions@.len() == n);
        if u != p {
            assert(after[u] == states[u]);
        }
    }
    assert forall|u: int, d: int| 0 <= u < after.len() && 0 <= d < n implies match #[trigger] after[u].transitions@[d] {
        Some(e) => 0 <= target_of(e.target) < after.len() && (e.target is Strong ==> target_of(
            e.target,
        ) > u),
        None => true,
    } by {
        if u != p || d != i {
            assert(after[u].transitions@[d] == states[u].transitions@[d]);
        }
    }
}

impl PTT {
    /// Whether the state `blue`, with the tree behind it, looks the same as the
    /// state `red`; see `folds`.
    pub fn ostia_fold(&self, red: usize, blue: usize) -> (r: bool)
        requires
            self.wf(),
            red < self.states@.len(),
            blue < self.states@.len(),
        ensures
            r == folds(self.states@, red as int, blue as int),
        decreases self.states@.len() - blue,
    {
        let ghost states = self.states@;
        let ghost n = self.alphabet@.len();
        assert(states[red as int].transitions@.len() == n);
        assert(states[blue as int].transitions@.len() == n);
        let same_kind = match (&self.states[red].output, &self.states[blue].output) {
            (Kind::Accepting(a), Kind::Accepting(b)) => a.same(b.as_slice()),
            (Kind::Accepting(_), _) => false,
            (_, Kind::Accepting(_)) => false,
            _ => true,
        };
        if !same_kind {
            return false;
        }
        let size = self.states[blue].transitions.len();
        let mut i: usize = 0;
        while i < size
            invariant
                i <= size,
                size == n,
                states == self.states@,
                self.wf(),
                n == self.alphabet@.len(),
                red < states.len(),
                blue < states.len(),
                folds_upto(states, red as int, blue as int, i as nat),
            decreases size - i,
        {
            assert(states[red as int].transitions@.len() == n);
            assert(states[blue as int].transitions@.len() == n);
            let agree = match (&self.states[blue].transitions[i], &self.states[red].transitions[i]) {
                (None, None) => true,
                (Some(b), Some(r)) => {
                    let tb = b.target.get();
                    let tr = r.target.get();
                    assert(states[blue as int].transitions@[i as int] == Some(*b));
                    assert(states[red as int].transitions@[i as int] == Some(*r));
                    let strong = match b.target {
                        Link::Strong(_) => true,
                        Link::Weak(_) => false,
                    };
                    if strong && b.output.same(r.output.as_slice()) {
                        self.ostia_fold(tr, tb)
                    } else {
                        false
                    }
                },
                _ => false,
            };
            if !agree {
                proof {
                    if folds_upto(states, red as int, blue as int, n) {
                        lemma_folds_edge(states, red as int, blue as int, n, i as int);
                    }
                }
                return false;
            }
            i = i + 1;
        }
        true
    }
}


impl PTT {
    /// The first state among `red` that looks the same as the state `blue`, if
    /// there is one; see `folds`.
    pub fn find_fold(&self, red: &Vec<usize>, blue: usize) -> (r: Option<usize>)
        requires
            self.wf(),
            blue < self.states@.len(),
            forall|k: int| 0 <= k < red@.len() ==> (#[trigger] red@[k]) < self.states@.len(),
        ensures
            match r {
                Some(x) => red@.contains(x) && folds(self.states@, x as int, blue as int),
                None => forall|k: int|
                    0 <= k < red@.len() ==> !folds(
                        self.states@,
                        (#[trigger] red@[k]) as int,
                        blue as int,
                    ),
            },
    {
        let mut k: usize = 0;
        while k < red.len()
            invariant
                k <= red.len(),
                self.wf(),
                blue < self.states@.len(),
                forall|k: int| 0 <= k < red@.len() ==> (#[trigger] red@[k]) < self.states@.len(),
                forall|x: int|
                    0 <= x < k ==> !folds(self.states@, (#[trigger] red@[x]) as int, blue as int),
            decreases red.len() - k,
        {
            if self.ostia_fold(red[k], blue) {
                assert(red@[k as int] == red[k as int]);
                return Some(red[k]);
            }
            k = k + 1;
        }
        None
    }

    /// Merges states that look the same: the states are taken up breadth first
    /// from the root, and an edge to a child that looks the same as a state
    /// taken up before is led to that state instead. What the transducer gives
    /// stays as it is. Returns the states that the transducer is left with, in
    /// the order in which they were taken up.
    pub fn ostia_compress(&mut self) -> (red: Vec<usize>)
        requires
            old(self).wf(),
        ensures
            final(self).wf(),
            final(self).alphabet == old(self).alphabet,
            final(self).states@.len() == old(self).states@.len(),
            forall|w: Seq<I>| #[trigger] final(self).output_for(w) == old(self).output_for(w),
            onward(old(self).states@) ==> onward(final(self).states@),
            plain(old(self).states@) ==> plain(final(self).states@),
            irreducible(final(self).states@, red@),
            red@.len() > 0,
            red@[0] == 0,
            red@.no_duplicates(),
            forall|k: int| 0 <= k < red@.len() ==> (#[trigger] red@[k]) < final(self).states@.len(),
            forall|k: int, d: int|
                0 <= k < red@.len() && 0 <= d < final(self).alphabet@.len() ==> match #[trigger] final(self).states@[red@[k] as int].transitions@[d] {
                    Some(e) => red@.contains(target_of(e.target) as usize),
                    None => true,
                },
    {
        let ghost orig = self.states@;
        let ghost n = self.alphabet@.len();
        let size = self.alphabet.len();
        let total = self.states.len();
        let mut set = NodeSet::new(total);
        let mut queue: Vec<(usize, usize)> = Vec::new();
        let mut head: usize = 0;
        set.insert(0);
        self.add_blue_states(0, &mut queue);
        proof {
            assert(set@.order[0] == 0);
        }
        while head < queue.len()
            invariant
                head <= queue@.len(),
                self.wf(),
                self.alphabet == old(self).alphabet,
                n == self.alphabet@.len(),
                size == n,
                total == self.states@.len(),
                total == orig.len(),
                orig == old(self).states@,
                set@.wf(total as nat),
                set@.order.len() > 0,
                set@.order[0] == 0,
                forall|w: Seq<I>| #[trigger] ptt_out(self.states@, 0, w) == ptt_out(orig, 0, w),
                onward(orig) ==> onward(self.states@),
                plain(orig) ==> plain(self.states@),
                irreducible(self.states@, set@.order),
                forall|q: int|
                    0 <= q < queue@.len() ==> (#[trigger] queue@[q]).0 < total && queue@[q].1 < n
                        && set@.seen[queue@[q].0 as int]
                        && self.states@[queue@[q].0 as int].transitions@[queue@[q].1 as int].is_some(),
                forall|u: int, d: int|
                    0 <= u < total && set@.seen[u] && 0 <= d < n ==> match #[trigger] self.states@[u].transitions@[d] {
                        Some(e) => set@.seen[target_of(e.target)] || exists|q: int|
                            head <= q < queue@.len() && queue@[q] == (u as usize, d as usize),
                        None => true,
                    },
            decreases count_unset(set@.seen), queue@.len() - head,
        {
            let (p, i) = queue[head];
            let ghost before = self.states@;
            let ghost queue_before = queue@;
            let ghost head_before = head;
            let ghost set_before = set@;
            head = head + 1;
            assert(before[p as int].transitions@.len() == n);
            let b = match &self.states[p].transitions[i] {
                Some(e) => e.target.get(),
                None => 0,
            };
            assert(before[p as int].transitions@[i as int].is_some());
            assert(b < total);
            if set.contains(b) {
                proof {
                    assert forall|u: int, d: int|
                        0 <= u < total && set@.seen[u] && 0 <= d < n implies match #[trigger] self.states@[u].transitions@[d] {
                        Some(e) => set@.seen[target_of(e.target)] || exists|q: int|
                            head <= q < queue@.len() && queue@[q] == (u as usize, d as usize),
                        None => true,
                    } by {
                        match self.states@[u].transitions@[d] {
                            Some(e) => {
                                if !set@.seen[target_of(e.target)] {
                                    let q = choose|q: int|
                                        head_before <= q < queue@.len() && queue@[q] == (
                                            u as usize,
                                            d as usize,
                                        );
                                    assert(q != head_before);
                                }
                            },
                            None => {},
                        }
                    }
                }
            } else {
                match self.find_fold(&set.order, b) {
                    Some(r) => {
                        let mut slot: Option<Edge> = None;
                        core::mem::swap(&mut slot, &mut self.states[p].transitions[i]);
                        match slot {
                            Some(e) => {
                                let mut e = e;
                                e.target = Link::Weak(r);
                                self.states[p].transitions[i] = Some(e);
                            },
                            None => {},
                        }
                        proof {
                            let after = self.states@;
                            assert(redirected(before, after, p as int, i as int, r as int));
                            lemma_redirected_wf(before, after, n, p as int, i as int, r as int);
                            if plain(before) {
                                lemma_redirected_plain(before, after, p as int, i as int, r as int);
                            }
                            if onward(before) {
                                lemma_redirected_onward(before, after, p as int, i as int, r as int);
                            }
                            assert forall|a: int, c: int|
                                0 <= a < c < set@.order.len() implies !folds(
                                after,
                                (#[trigger] set@.order[a]) as int,
                                (#[trigger] set@.order[c]) as int,
                            ) by {
                                if folds(after, set@.order[a] as int, set@.order[c] as int) {
                                    lemma_redirected_folds(
                                        before,
                                        after,
                                        p as int,
                                        i as int,
                                        r as int,
                                        set@.order[a] as int,
                                        set@.order[c] as int,
                                    );
                                }
                            }
                            assert forall|w: Seq<I>| #[trigger]
                                ptt_out(after, 0, w) == ptt_out(orig, 0, w) by {
                                lemma_redirected(before, after, p as int, i as int, r as int, 0, w);
                                assert(ptt_out(before, 0, w) == ptt_out(orig, 0, w));
                            }
                            let x = choose|x: int|
                                0 <= x < set@.order.len() && set@.order[x] == r;
                            assert(set@.seen[set@.order[x] as int]);
                            assert forall|u: int, d: int|
                                0 <= u < total && set@.seen[u] && 0 <= d
                                    < n implies match #[trigger] after[u].transitions@[d] {
                                Some(e) => set@.seen[target_of(e.target)] || exists|q: int|
                                    head <= q < queue@.len() && queue@[q] == (
                                        u as usize,
                                        d as usize,
                                    ),
                                None => true,
                            } by {
                                if u == p && d == i {
                                } else {
                                    assert(after[u].transitions@[d] == before[u].transitions@[d]);
                                    match before[u].transitions@[d] {
                                        Some(e) => {
                                            if !set@.seen[target_of(e.target)] {
                                                let q = choose|q: int|
                                                    head_before <= q < queue@.len() && queue@[q]
                                                        == (u as usize, d as usize);
                                                assert(q != head_before);
                                            }
                                        },
                                        None => {},
                                    }
                                }
                            }
                            assert forall|q: int| 0 <= q < queue@.len() implies (
                            #[trigger] queue@[q]).0 < total && queue@[q].1 < n
                                && set@.seen[queue@[q].0 as int]
                                && after[queue@[q].0 as int].transitions@[queue@[q].1 as int].is_some() by {
                                assert(before[queue@[q].0 as int].transitions@[queue@[q].1 as int].is_some());
                            }
                        }
                    },
                    None => {
                        proof {
                            crate::collect::lemma_count_unset_update(set@.seen, b as int);
                        }
                        set.insert(b);
                        self.add_blue_states(b, &mut queue);
                        proof {
                            assert(set@.order[0] == set_before.order[0]);
                            assert forall|a: int, c: int|
                                0 <= a < c < set@.order.len() implies !folds(
                                self.states@,
                                (#[trigger] set@.order[a]) as int,
                                (#[trigger] set@.order[c]) as int,
                            ) by {
                                assert(set@.order[a] == set_before.order[a]);
                                if c < set_before.order.len() {
                                    assert(set@.order[c] == set_before.order[c]);
                                }
                            }
                            assert forall|q: int| 0 <= q < queue@.len() implies (
                            #[trigger] queue@[q]).0 < total && queue@[q].1 < n
                                && set@.seen[queue@[q].0 as int]
                                && self.states@[queue@[q].0 as int].transitions@[queue@[q].1 as int].is_some() by {
                                if q < queue_before.len() {
                                    assert(queue@[q] == queue_before[q]);
                                    assert(set_before.seen[queue_before[q].0 as int]);
                                }
                            }
                            assert forall|u: int, d: int|
                                0 <= u < total && set@.seen[u] && 0 <= d
                                    < n implies match #[trigger] self.states@[u].transitions@[d] {
                                Some(e) => set@.seen[target_of(e.target)] || exists|q: int|
                                    head <= q < queue@.len() && queue@[q] == (
                                        u as usize,
                                        d as usize,
                                    ),
                                None => true,
                            } by {
                                match self.states@[u].transitions@[d] {
                                    Some(e) => {
                                        if u == b {
                                            let q = choose|q: int|
                                                queue_before.len() <= q < queue@.len() && queue@[q]
                                                    == (u as usize, d as usize);
                                            assert(head <= q);
                                        } else if !set@.seen[target_of(e.target)] {
                                            assert(set_before.seen[u]);
                                            let q = choose|q: int|
                                                head_before <= q < queue_before.len()
                                                    && queue_before[q] == (u as usize, d as usize);
                                            assert(q != head_before);
                                            assert(queue@[q] == queue_before[q]);
                                        }
                                    },
                                    None => {},
                                }
                            }
                        }
                    },
                }
            }
        }
        proof {
            lemma_order_no_duplicates(set@, total as nat);
            assert forall|k: int, d: int|
                0 <= k < set@.order.len() && 0 <= d < n implies match #[trigger] self.states@[set@.order[k] as int].transitions@[d] {
                Some(e) => set@.order.contains(target_of(e.target) as usize),
                None => true,
            } by {
                let u = set@.order[k] as int;
                assert(set@.seen[u]);
                match self.states@[u].transitions@[d] {
                    Some(e) => {
                        assert(set@.seen[target_of(e.target)]);
                    },
                    None => {},
                }
            }
        }
        set.order
    }

    /// Appends to `queue` the edges that leave the state `parent`, each as the
    /// pair of the state and the symbol.
    pub fn add_blue_states(&self, parent: usize, queue: &mut Vec<(usize, usize)>)
        requires
            self.wf(),
            parent < self.states@.len(),
        ensures
            final(queue)@.len() >= old(queue)@.len(),
            final(queue)@.subrange(0, old(queue)@.len() as int) == old(queue)@,
            forall|q: int|
                old(queue)@.len() <= q < final(queue)@.len() ==> (#[trigger] final(queue)@[q]).0
                    == parent && final(queue)@[q].1 < self.alphabet@.len()
                    && self.states@[parent as int].transitions@[final(queue)@[q].1 as int].is_some(),
            forall|d: int|
                0 <= d < self.alphabet@.len() && (
                #[trigger] self.states@[parent as int].transitions@[d]).is_some() ==> exists|q: int|
                    old(queue)@.len() <= q < final(queue)@.len() && final(queue)@[q] == (
                        parent,
                        d as usize,
                    ),
    {
        let ghost n = self.alphabet@.len();
        assert(self.states@[parent as int].transitions@.len() == n);
        let size = self.states[parent].transitions.len();
        let mut d: usize = 0;
        while d < size
            invariant
                d <= size,
                size == n,
                n == self.alphabet@.len(),
                parent < self.states@.len(),
                self.states@[parent as int].transitions@.len() == n,
                queue@.len() >= old(queue)@.len(),
                queue@.subrange(0, old(queue)@.len() as int) == old(queue)@,
                forall|q: int|
                    old(queue)@.len() <= q < queue@.len() ==> (#[trigger] queue@[q]).0 == parent
                        && queue@[q].1 < n
                        && self.states@[parent as int].transitions@[queue@[q].1 as int].is_some(),
                forall|x: int|
                    0 <= x < d && (#[trigger] self.states@[parent as int].transitions@[x]).is_some()
                        ==> exists|q: int|
                        old(queue)@.len() <= q < queue@.len() && queue@[q] == (parent, x as usize),
            decreases size - d,
        {
            let ghost before = queue@;
            if self.states[parent].transitions[d].is_some() {
                queue.push((parent, d));
                proof {
                    assert(queue@.subrange(0, old(queue)@.len() as int) =~= old(queue)@);
                    assert(queue@[before.len() as int] == (parent, d));
                    assert forall|x: int|
                        0 <= x < d + 1 && (
                        #[trigger] self.states@[parent as int].transitions@[x]).is_some() implies exists|
                        q: int,
                    |
                        old(queue)@.len() <= q < queue@.len() && queue@[q] == (
                            parent,
                            x as usize,
                        ) by {
                        if x < d {
                            let q = choose|q: int|
                                old(queue)@.len() <= q < before.len() && before[q] == (
                                    parent,
                                    x as usize,
                                );
                            assert(queue@[q] == before[q]);
                        } else {
                            assert(queue@[before.len() as int] == (parent, x as usize));
                        }
                    }
                }
            }
            d = d + 1;
        }
    }
}


/// The word of a sample: the symbols of its input, by their indices in the
/// alphabet.
pub open spec fn sample_word(alphabet: Seq<A>, sample: (IntSeq, Option<IntSeq>)) -> Seq<I> {
    embedded(alphabet, sample.0.symbols())
}

/// The bytes of the output of a sample that has one.
pub open spec fn sample_output(sample: (IntSeq, Option<IntSeq>)) -> Seq<u8> {
    encode_utf8(sample.1.unwrap()@)
}

/// What the first `n` samples teach of the word `w`: the output of the last of
/// them that has this word for its input and has an output.
pub open spec fn taught(
    informant: Seq<(IntSeq, Option<IntSeq>)>,
    alphabet: Seq<A>,
    n: nat,
    w: Seq<I>,
) -> Option<Seq<u8>>
    decreases n,
{
    if n == 0 || n > informant.len() {
        None
    } else {
        let sample = informant[n - 1];
        if sample.1.is_some() && sample_word(alphabet, sample) == w {
            Some(sample_output(sample))
        } else {
            taught(informant, alphabet, (n - 1) as nat, w)
        }
    }
}

/// Whether the sample `i` gives its input another output than a sample before
/// it.
pub open spec fn conflict_at(informant: Seq<(IntSeq, Option<IntSeq>)>, alphabet: Seq<A>, i: int) -> bool {
    &&& 0 <= i < informant.len()
    &&& informant[i].1.is_some()
    &&& taught(informant, alphabet, i as nat, sample_word(alphabet, informant[i])).is_some()
    &&& taught(informant, alphabet, i as nat, sample_word(alphabet, informant[i])).unwrap()
        != sample_output(informant[i])
}

/// Samples without conflicts teach the output of each of them.
pub proof fn lemma_taught_sample(
    informant: Seq<(IntSeq, Option<IntSeq>)>,
    alphabet: Seq<A>,
    n: nat,
    i: int,
)
    requires
        n <= informant.len(),
        0 <= i < n,
        informant[i].1.is_some(),
        forall|j: int| 0 <= j < n ==> !conflict_at(informant, alphabet, j),
    ensures
        taught(informant, alphabet, n, sample_word(alphabet, informant[i])) == Some(
            sample_output(informant[i]),
        ),
    decreases n,
{
    if i < n - 1 {
        lemma_taught_sample(informant, alphabet, (n - 1) as nat, i);
        assert(!conflict_at(informant, alphabet, n - 1));
    }
}

/// Whether the output of every sample that has one is written with bytes
/// below 0x80 only.
pub open spec fn ascii_outputs(informant: Seq<(IntSeq, Option<IntSeq>)>) -> bool {
    forall|i: int|
        0 <= i < informant.len() ==> match (#[trigger] informant[i]).1 {
            Some(o) => ascii(encode_utf8(o@)),
            None => true,
        }
}

/// Whether every symbol of every input of the samples is in the alphabet.
pub open spec fn inputs_known(informant: Seq<(IntSeq, Option<IntSeq>)>, alphabet: Seq<A>) -> bool {
    forall|i: int, k: int|
        0 <= i < informant.len() && 0 <= k < informant[i].0.symbols().len() ==> alphabet.contains(
            #[trigger] informant[i].0.symbols()[k],
        )
}

impl PTT {
    /// The symbols of the string by their indices in the alphabet.
    pub fn embed_word(&self, input: &IntSeq) -> (r: Vec<I>)
        requires
            forall|k: int|
                0 <= k < input.symbols().len() ==> self.alphabet@.contains(
                    #[trigger] input.symbols()[k],
                ),
        ensures
            r@ == embedded(self.alphabet@, input.symbols()),
            forall|k: int| 0 <= k < r@.len() ==> #[trigger] r@[k] < self.alphabet@.len(),
    {
        let symbols = input.to_symbols();
        self.alphabet.validity();
        let mut word: Vec<I> = Vec::with_capacity(symbols.len());
        let mut k: usize = 0;
        while k < symbols.len()
            invariant
                k <= symbols.len(),
                symbols@ == input.symbols(),
                self.alphabet@.no_duplicates(),
                forall|k: int|
                    0 <= k < input.symbols().len() ==> self.alphabet@.contains(
                        #[trigger] input.symbols()[k],
                    ),
                word@ == embedded(self.alphabet@, symbols@).subrange(0, k as int),
                forall|x: int| 0 <= x < word@.len() ==> #[trigger] word@[x] < self.alphabet@.len(),
            decreases symbols.len() - k,
        {
            let c = symbols[k];
            assert(self.alphabet@.contains(input.symbols()[k as int]));
            let idx = self.alphabet.embed(c);
            proof {
                let at = self.alphabet@.index_of(c);
                assert(self.alphabet@[at] == c);
                assert(at == idx);
                assert(word@.push(idx) =~= embedded(self.alphabet@, symbols@).subrange(0, k + 1));
            }
            word.push(idx);
            k = k + 1;
        }
        assert(embedded(self.alphabet@, symbols@).subrange(0, k as int) =~= embedded(
            self.alphabet@,
            symbols@,
        ));
        word
    }

    /// Teaches the transducer to give `output` for `input`. If it gives another
    /// output for the input already, nothing is learnt, and the bytes of that
    /// output are returned.
    pub fn insert_ptt_positive(&mut self, input: &IntSeq, output: &IntSeq) -> (r: Result<
        (),
        Vec<u8>,
    >)
        requires
            old(self).is_prefix_tree(),
            forall|k: int|
                0 <= k < input.symbols().len() ==> old(self).alphabet@.contains(
                    #[trigger] input.symbols()[k],
                ),
        ensures
            final(self).is_prefix_tree(),
            final(self).alphabet == old(self).alphabet,
            onward(old(self).states@) && r.is_ok() ==> onward(final(self).states@),
            plain(old(self).states@) && ascii(encode_utf8(output@)) ==> plain(final(self).states@),
            match old(self).output_for(embedded(old(self).alphabet@, input.symbols())) {
                Some(z) if z != encode_utf8(output@) => r.is_err() && r.unwrap_err()@ == z
                    && forall|w: Seq<I>| #[trigger]
                    final(self).output_for(w) == old(self).output_for(w),
                _ => r.is_ok() && forall|w: Seq<I>| #[trigger]
                    final(self).output_for(w) == if w == embedded(
                        old(self).alphabet@,
                        input.symbols(),
                    ) {
                        Some(encode_utf8(output@))
                    } else {
                        old(self).output_for(w)
                    },
            },
    {
        let word = self.embed_word(input);
        self.insert_word(word.as_slice(), output.as_bytes())
    }

    /// The prefix tree transducer of the samples that have an output. If a
    /// sample gives its input another output than a sample before it, there is
    /// none: the index of the first such sample is returned, with the bytes of
    /// the output that the samples before it give.
    pub fn build_ptt(informant: &Informant, alphabet: IntEmbedding) -> (r: Result<
        PTT,
        (usize, Vec<u8>),
    >)
        requires
            inputs_known(informant@, alphabet@),
        ensures
            match r {
                Ok(ptt) => ptt.is_prefix_tree() && onward(ptt.states@) && (ascii_outputs(
                    informant@,
                ) ==> plain(ptt.states@)) && ptt.alphabet@ == alphabet@ && (forall|j: int|
                    0 <= j < informant@.len() ==> !conflict_at(informant@, alphabet@, j))
                    && forall|w: Seq<I>| #[trigger]
                    ptt.output_for(w) == taught(informant@, alphabet@, informant@.len(), w),
                Err((i, z)) => conflict_at(informant@, alphabet@, i as int) && (forall|j: int|
                    0 <= j < i ==> !conflict_at(informant@, alphabet@, j)) && taught(
                    informant@,
                    alphabet@,
                    i as nat,
                    sample_word(alphabet@, informant@[i as int]),
                ) == Some(z@),
            },
    {
        let mut root = PTT::new(alphabet);
        let mut i: usize = 0;
        while i < informant.len()
            invariant
                i <= informant.len(),
                root.is_prefix_tree(),
                onward(root.states@),
                ascii_outputs(informant@) ==> plain(root.states@),
                root.alphabet@ == alphabet@,
                inputs_known(informant@, alphabet@),
                forall|j: int| 0 <= j < i ==> !conflict_at(informant@, alphabet@, j),
                forall|w: Seq<I>| #[trigger]
                    root.output_for(w) == taught(informant@, alphabet@, i as nat, w),
            decreases informant.len() - i,
        {
            let ghost before = root;
            match &informant[i].1 {
                Some(out_sample) => {
                    proof {
                        assert forall|k: int|
                            0 <= k < informant@[i as int].0.symbols().len() implies root.alphabet@.contains(
                            #[trigger] informant@[i as int].0.symbols()[k],
                        ) by {}
                        if ascii_outputs(informant@) {
                            assert(informant@[i as int].1 == Some(*out_sample));
                            assert(ascii(encode_utf8(out_sample@)));
                        }
                    }
                    match root.insert_ptt_positive(&informant[i].0, out_sample) {
                        Ok(()) => {},
                        Err(z) => {
                            return Err((i, z));
                        },
                    }
                },
                None => {},
            }
            i = i + 1;
        }
        Ok(root)
    }
}


/// The edge of an intermediate graph that an edge of the transducer becomes:
/// it reads the symbol and gives the output, with weight 0.
pub open spec fn compiled_edge(symbol: A, e: Edge) -> (EView, NodeId) {
    (
        EView {
            from_exclusive: (symbol - 1) as A,
            to_inclusive: symbol,
            partial: PView { weight: 0, output: decode_utf8(e.output@) },
        },
        target_of(e.target) as usize,
    )
}

/// The edges that leave a state for the first `n` symbols of the alphabet, as
/// edges of an intermediate graph.
pub open spec fn state_edges(state: State, alphabet: Seq<A>, n: nat) -> Seq<(EView, NodeId)>
    decreases n,
{
    if n == 0 {
        Seq::empty()
    } else {
        let before = state_edges(state, alphabet, (n - 1) as nat);
        match state.transitions@[n - 1] {
            Some(e) => before.push(compiled_edge(alphabet[n - 1], e)),
            None => before,
        }
    }
}

/// Whether the outputs of the edges for the first `n` symbols are strings.
pub open spec fn edges_are_text(state: State, n: nat) -> bool
    decreases n,
{
    if n == 0 {
        true
    } else {
        edges_are_text(state, (n - 1) as nat) && match state.transitions@[n - 1] {
            Some(e) => valid_utf8(e.output@),
            None => true,
        }
    }
}

/// Whether the outputs of a state, those of its edges and the one with which
/// it accepts, are strings.
pub open spec fn state_is_text(state: State) -> bool {
    edges_are_text(state, state.transitions@.len()) && match accepted(state.output) {
        Some(o) => valid_utf8(o),
        None => true,
    }
}

/// The accepting states among the first `k` of `red`, each with its output.
pub open spec fn compiled_finals(states: Seq<State>, red: Seq<usize>, k: nat) -> Seq<
    (NodeId, PView),
>
    decreases k,
{
    if k == 0 {
        Seq::empty()
    } else {
        let before = compiled_finals(states, red, (k - 1) as nat);
        match accepted(states[red[k - 1] as int].output) {
            Some(o) => before.push((red[k - 1], PView { weight: 0, output: decode_utf8(o) })),
            None => before,
        }
    }
}

/// The intermediate graph of a transducer that is left with the states `red`:
/// one node for every state of the list of states, under the same index; the
/// nodes of the states of `red` have the edges of these states. The graph is
/// entered by the edges of the root, accepts in the accepting states of `red`,
/// and accepts the empty input if the root accepts.
pub open spec fn compiled(states: Seq<State>, alphabet: Seq<A>, red: Seq<usize>, pos: V) -> GView {
    GView {
        nodes: Seq::new(
            states.len(),
            |s: int|
                NView {
                    meta: pos,
                    outgoing: if red.contains(s as usize) {
                        state_edges(states[s], alphabet, alphabet.len())
                    } else {
                        Seq::empty()
                    },
                },
        ),
        incoming: state_edges(states[0], alphabet, alphabet.len()),
        outgoing: compiled_finals(states, red, red.len()),
        epsilon: match accepted(states[0].output) {
            Some(o) => Some(PView { weight: 0, output: decode_utf8(o) }),
            None => None,
        },
    }
}

/// Whether every output of every state of `red` is a string.
pub open spec fn all_text(states: Seq<State>, red: Seq<usize>) -> bool {
    forall|k: int| 0 <= k < red.len() ==> state_is_text(#[trigger] states[red[k] as int])
}

/// The edges of a state lead where the edges of the transducer lead, and their
/// intervals are not empty.
pub proof fn lemma_state_edges_within(states: Seq<State>, alphabet: Seq<A>, s: int, n: nat)
    requires
        states_wf(states, alphabet.len()),
        0 <= s < states.len(),
        n <= alphabet.len(),
        states.len() <= usize::MAX,
        forall|d: int| 0 <= d < alphabet.len() ==> #[trigger] alphabet[d] > REFLECT,
    ensures
        edges_within(state_edges(states[s], alphabet, n), states.len()),
    decreases n,
{
    if n > 0 {
        lemma_state_edges_within(states, alphabet, s, (n - 1) as nat);
        let before = state_edges(states[s], alphabet, (n - 1) as nat);
        assert(alphabet[n - 1] > REFLECT);
        match states[s].transitions@[n - 1] {
            Some(e) => {
                let r = before.push(compiled_edge(alphabet[n - 1], e));
                assert forall|i: int| 0 <= i < r.len() implies (#[trigger] r[i]).1 < states.len()
                    && r[i].0.from_exclusive < r[i].0.to_inclusive by {
                    if i < before.len() {
                        assert(r[i] == before[i]);
                    }
                }
            },
            None => {},
        }
    }
}

/// The accepting states of a list without repetition are listed without
/// repetition.
pub proof fn lemma_compiled_finals(states: Seq<State>, red: Seq<usize>, k: nat)
    requires
        k <= red.len(),
        red.no_duplicates(),
        forall|i: int| 0 <= i < red.len() ==> (#[trigger] red[i]) < states.len(),
    ensures
        finals_within(compiled_finals(states, red, k), states.len()),
        forall|i: int|
            0 <= i < compiled_finals(states, red, k).len() ==> exists|x: int|
                0 <= x < k && red[x] == (#[trigger] compiled_finals(states, red, k)[i]).0,
    decreases k,
{
    if k > 0 {
        lemma_compiled_finals(states, red, (k - 1) as nat);
        let before = compiled_finals(states, red, (k - 1) as nat);
        let all = compiled_finals(states, red, k);
        match accepted(states[red[k - 1] as int].output) {
            Some(o) => {
                assert forall|i: int| 0 <= i < all.len() implies exists|x: int|
                    0 <= x < k && red[x] == (#[trigger] all[i]).0 by {
                    if i < before.len() {
                        assert(all[i] == before[i]);
                        let x = choose|x: int| 0 <= x < k - 1 && red[x] == before[i].0;
                        assert(0 <= x < k);
                    } else {
                        assert(red[k - 1] == all[i].0);
                    }
                }
                assert forall|i: int, j: int| 0 <= i < j < all.len() implies (#[trigger] all[i]).0
                    != (#[trigger] all[j]).0 by {
                    if j < before.len() {
                        assert(all[i] == before[i] && all[j] == before[j]);
                    } else {
                        assert(all[i] == before[i]);
                        let x = choose|x: int| 0 <= x < k - 1 && red[x] == before[i].0;
                        assert(red[x] != red[k - 1]);
                    }
                }
                assert forall|i: int| 0 <= i < all.len() implies (#[trigger] all[i]).0
                    < states.len() by {
                    if i < before.len() {
                        assert(all[i] == before[i]);
                    }
                }
            },
            None => {
                assert forall|i: int| 0 <= i < all.len() implies exists|x: int|
                    0 <= x < k && red[x] == (#[trigger] all[i]).0 by {
                    let x = choose|x: int| 0 <= x < k - 1 && red[x] == before[i].0;
                    assert(0 <= x < k);
                }
            },
        }
    }
}

impl PTT {
    /// The edges of the state `s` as edges of an intermediate graph, or
    /// nothing if the output of one of them is no string; see `state_edges`.
    pub fn compile_edges(&self, s: usize) -> (r: Option<Vec<(E, NodeId)>>)
        requires
            self.wf(),
            s < self.states@.len(),
            forall|d: int| 0 <= d < self.alphabet@.len() ==> #[trigger] self.alphabet@[d] > REFLECT,
        ensures
            r.is_some() <==> edges_are_text(self.states@[s as int], self.alphabet@.len()),
            r.is_some() ==> edges_view(r.unwrap()@) == state_edges(
                self.states@[s as int],
                self.alphabet@,
                self.alphabet@.len(),
            ),
    {
        let ghost state = self.states@[s as int];
        let ghost n = self.alphabet@.len();
        assert(state.transitions@.len() == n);
        let size = self.alphabet.len();
        let mut edges: Vec<(E, NodeId)> = Vec::new();
        let mut d: usize = 0;
        assert(edges_view(edges@) =~= Seq::empty());
        while d < size
            invariant
                d <= size,
                size == n,
                n == self.alphabet@.len(),
                self.wf(),
                s < self.states@.len(),
                state == self.states@[s as int],
                state.transitions@.len() == n,
                forall|d: int| 0 <= d < n ==> #[trigger] self.alphabet@[d] > REFLECT,
                edges_are_text(state, d as nat),
                edges_view(edges@) == state_edges(state, self.alphabet@, d as nat),
            decreases size - d,
        {
            match &self.states[s].transitions[d] {
                Some(e) => {
                    assert(state.transitions@[d as int] == Some(*e));
                    let symbol = self.alphabet.retrieve(d);
                    assert(self.alphabet@[d as int] > REFLECT);
                    match e.output.as_str() {
                        Some(text) => {
                            let edge = E::new_from_symbol(symbol, P::new(0, IntSeq::from(text)));
                            let target = e.target.get();
                            proof {
                                assert(edges_view(edges@.push((edge, target))) =~= edges_view(
                                    edges@,
                                ).push((edge@, target)));
                            }
                            edges.push((edge, target));
                        },
                        None => {
                            proof {
                                lemma_edges_are_text_prefix(state, (d + 1) as nat, n);
                            }
                            return None;
                        },
                    }
                },
                None => {},
            }
            d = d + 1;
        }
        Some(edges)
    }

    /// The intermediate graph of the transducer that is left with the states
    /// `red`; see `compiled`. There is none if an output of one of these states
    /// is no string.
    pub fn compile(&self, red: &Vec<usize>, pos: V) -> (r: Result<G, CompErr>)
        requires
            self.wf(),
            red@.no_duplicates(),
            forall|i: int| 0 <= i < red@.len() ==> (#[trigger] red@[i]) < self.states@.len(),
            red@.contains(0),
            forall|d: int| 0 <= d < self.alphabet@.len() ==> #[trigger] self.alphabet@[d] > REFLECT,
        ensures
            all_text(self.states@, red@) ==> r.is_ok() && r.unwrap()@ == compiled(
                self.states@,
                self.alphabet@,
                red@,
                pos,
            ) && r.unwrap()@.wf(),
            !all_text(self.states@, red@) ==> (r matches Err(CompErr::Parse(p, m)) && p == pos
                && m@ == "Output is not a valid UTF-8 string"@),
    {
        let ghost states = self.states@;
        let ghost alphabet = self.alphabet@;
        let ghost n = alphabet.len();
        let ghost target = compiled(states, alphabet, red@, pos);
        let total = self.states.len();
        let mut pool = Pool::new();
        let mut s: usize = 0;
        while s < total
            invariant
                s <= total,
                total == states.len(),
                pool@.len() == s,
                forall|x: int|
                    0 <= x < s ==> #[trigger] pool@[x] == (NView {
                        meta: pos,
                        outgoing: Seq::empty(),
                    }),
            decreases total - s,
        {
            N::new(pos, &mut pool);
            s = s + 1;
        }
        let mut outgoing: Vec<(NodeId, P)> = Vec::new();
        let mut k: usize = 0;
        assert(finals_view(outgoing@) =~= Seq::empty());
        while k < red.len()
            invariant
                k <= red.len(),
                self.wf(),
                states == self.states@,
                alphabet == self.alphabet@,
                n == alphabet.len(),
                total == states.len(),
                pool@.len() == total,
                red@.no_duplicates(),
                forall|i: int| 0 <= i < red@.len() ==> (#[trigger] red@[i]) < states.len(),
                forall|d: int| 0 <= d < n ==> #[trigger] alphabet[d] > REFLECT,
                forall|x: int| 0 <= x < k ==> state_is_text(#[trigger] states[red@[x] as int]),
                finals_view(outgoing@) == compiled_finals(states, red@, k as nat),
                forall|x: int|
                    0 <= x < total ==> #[trigger] pool@[x] == (NView {
                        meta: pos,
                        outgoing: if red@.subrange(0, k as int).contains(x as usize) {
                            state_edges(states[x], alphabet, n)
                        } else {
                            Seq::empty()
                        },
                    }),
            decreases red.len() - k,
        {
            let state = red[k];
            let ghost pool_before = pool@;
            assert(states[state as int].transitions@.len() == n);
            let edges = match self.compile_edges(state) {
                Some(edges) => edges,
                None => {
                    proof {
                        assert(!state_is_text(states[red@[k as int] as int]));
                    }
                    return Err(
                        CompErr::Parse(pos, "Output is not a valid UTF-8 string".to_owned()),
                    );
                },
            };
            match &self.states[state].output {
                Kind::Accepting(out) => {
                    match out.as_str() {
                        Some(text) => {
                            let p = P::new(0, IntSeq::from(text));
                            proof {
                                assert(finals_view(outgoing@.push((state, p))) =~= finals_view(
                                    outgoing@,
                                ).push((state, p@)));
                            }
                            outgoing.push((state, p));
                        },
                        None => {
                            proof {
                                assert(!state_is_text(states[red@[k as int] as int]));
                            }
                            return Err(
                                CompErr::Parse(
                                    pos,
                                    "Output is not a valid UTF-8 string".to_owned(),
                                ),
                            );
                        },
                    }
                },
                _ => {},
            }
            pool.nodes[state].outgoing = edges;
            proof {
                let before = red@.subrange(0, k as int);
                let now = red@.subrange(0, k + 1);
                assert(now =~= before.push(state));
                assert forall|x: int| 0 <= x < total implies #[trigger] pool@[x] == (NView {
                    meta: pos,
                    outgoing: if now.contains(x as usize) {
                        state_edges(states[x], alphabet, n)
                    } else {
                        Seq::empty()
                    },
                }) by {
                    if x == state {
                        assert(now[k as int] == state);
                        assert(pool_before[x].meta == pos);
                    } else {
                        assert(pool@[x] == pool_before[x]);
                        if before.contains(x as usize) {
                            let i = choose|i: int| 0 <= i < before.len() && before[i] == x as usize;
                            assert(now[i] == x as usize);
                        }
                        if now.contains(x as usize) {
                            let i = choose|i: int| 0 <= i < now.len() && now[i] == x as usize;
                            assert(i < k);
                            assert(before[i] == x as usize);
                        }
                    }
                }
            }
            k = k + 1;
        }
        assert(red@.subrange(0, k as int) =~= red@);
        let incoming = self.compile_edges(0);
        let epsilon = match &self.states[0].output {
            Kind::Accepting(out) => {
                let text = out.as_str();
                proof {
                    let i = choose|i: int| 0 <= i < red@.len() && red@[i] == 0usize;
                    assert(state_is_text(states[red@[i] as int]));
                }
                Some(P::new(0, IntSeq::from(text.unwrap())))
            },
            _ => None,
        };
        proof {
            let i = choose|i: int| 0 <= i < red@.len() && red@[i] == 0usize;
            assert(state_is_text(states[red@[i] as int]));
            assert(states[0].transitions@.len() == n);
        }
        let g = G { pool, incoming: incoming.unwrap(), outgoing, epsilon };
        proof {
            assert(g@.nodes =~= target.nodes);
            assert(g@ == target);
            assert forall|x: int| 0 <= x < g@.nodes.len() implies edges_within(
                (#[trigger] g@.nodes[x]).outgoing,
                g@.nodes.len(),
            ) by {
                if red@.contains(x as usize) {
                    lemma_state_edges_within(states, alphabet, x, n);
                }
            }
            lemma_state_edges_within(states, alphabet, 0, n);
            lemma_compiled_finals(states, red@, red@.len());
        }
        Ok(g)
    }
}

/// Edges that are not all strings among the first symbols are not all strings
/// among more symbols.
pub proof fn lemma_edges_are_text_prefix(state: State, k: nat, n: nat)
    requires
        k <= n,
        !edges_are_text(state, k),
    ensures
        !edges_are_text(state, n),
    decreases n - k,
{
    if k < n {
        lemma_edges_are_text_prefix(state, k + 1, n);
    }
}


/// The first `n` edges of a state whose outputs hold bytes below 0x80 only
/// give strings.
pub proof fn lemma_plain_edges_text(state: State, n: nat)
    requires
        plain_state(state),
        n <= state.transitions@.len(),
    ensures
        edges_are_text(state, n),
    decreases n,
{
    if n > 0 {
        lemma_plain_edges_text(state, (n - 1) as nat);
        match state.transitions@[n - 1] {
            Some(e) => {
                lemma_ascii_text(e.output@);
            },
            None => {},
        }
    }
}

/// The outputs of a transducer whose outputs hold bytes below 0x80 only are
/// strings.
pub proof fn lemma_plain_text(states: Seq<State>, red: Seq<usize>)
    requires
        plain(states),
        forall|k: int| 0 <= k < red.len() ==> (#[trigger] red[k]) < states.len(),
    ensures
        all_text(states, red),
{
    assert forall|k: int| 0 <= k < red.len() implies state_is_text(
        #[trigger] states[red[k] as int],
    ) by {
        let state = states[red[k] as int];
        assert(plain_state(state));
        lemma_plain_edges_text(state, state.transitions@.len());
        match accepted(state.output) {
            Some(o) => {
                lemma_ascii_text(o);
            },
            None => {},
        }
    }
}

/// Whether the transducer with the states `red` is what merging leaves of
/// the prefix tree transducer of the samples, none of which gives its input
/// another output than a sample before it: an onward transducer over the
/// alphabet that gives for every word what the samples teach, and states
/// that begin with the root, of which none stands twice, and that hold with
/// every state the states to which its edges lead.
pub open spec fn merged(
    informant: Seq<(IntSeq, Option<IntSeq>)>,
    alphabet: Seq<A>,
    ptt: PTT,
    red: Seq<usize>,
) -> bool {
    &&& ptt.wf()
    &&& onward(ptt.states@)
    &&& ptt.alphabet@ == alphabet
    &&& forall|j: int| 0 <= j < informant.len() ==> !conflict_at(informant, alphabet, j)
    &&& forall|w: Seq<I>| #[trigger]
        ptt.output_for(w) == taught(informant, alphabet, informant.len(), w)
    &&& red.len() > 0
    &&& red[0] == 0
    &&& red.no_duplicates()
    &&& forall|k: int| 0 <= k < red.len() ==> (#[trigger] red[k]) < ptt.states@.len()
    &&& forall|k: int, d: int|
        0 <= k < red.len() && 0 <= d < alphabet.len() ==> match #[trigger] ptt.states@[red[k] as int].transitions@[d] {
            Some(e) => red.contains(target_of(e.target) as usize),
            None => true,
        }
}

/// What an inference leaves: the transducer, the states that it is left with,
/// and the intermediate graph that was made of them.
pub struct Inferred {
    pub ptt: PTT,
    pub red: Vec<usize>,
    pub g: G,
}

/// What can keep an inference from giving a graph.
pub enum InferenceFault {
    /// The sample with this index gives its input another output than a sample
    /// before it, which gave the output with these bytes.
    Conflict(usize, Vec<u8>),
    /// The output of a state that would be an edge of the graph is no string.
    NotText,
}

impl PTT {
    /// Infers a transducer from the samples: builds their prefix tree
    /// transducer, merges the states that look the same, and makes the
    /// intermediate graph of what is left; see `merged`. The graph gives for
    /// the input of every sample that has an output the output of that
    /// sample. There is none if a sample gives its input another output than
    /// a sample before it. Nor is there one if an output of a state that is
    /// left is no string, because an output was cut inside a character, which
    /// does not happen where the outputs of the samples are written with
    /// bytes below 0x80 only.
    pub fn infer(pos: V, informant: &Informant, alphabet: IntEmbedding) -> (r: Result<
        Inferred,
        InferenceFault,
    >)
        requires
            inputs_known(informant@, alphabet@),
            forall|d: int| 0 <= d < alphabet@.len() ==> #[trigger] alphabet@[d] > REFLECT,
        ensures
            match r {
                Ok(x) => {
                    &&& merged(informant@, alphabet@, x.ptt, x.red@)
                    &&& all_text(x.ptt.states@, x.red@)
                    &&& x.g@ == compiled(x.ptt.states@, alphabet@, x.red@, pos)
                    &&& x.g@.wf()
                },
                Err(InferenceFault::Conflict(i, z)) => conflict_at(informant@, alphabet@, i as int)
                    && (forall|j: int| 0 <= j < i ==> !conflict_at(informant@, alphabet@, j))
                    && taught(
                    informant@,
                    alphabet@,
                    i as nat,
                    sample_word(alphabet@, informant@[i as int]),
                ) == Some(z@),
                Err(InferenceFault::NotText) => !ascii_outputs(informant@) && exists|
                    ptt: PTT,
                    red: Seq<usize>,
                | #[trigger]
                    merged(informant@, alphabet@, ptt, red) && !all_text(ptt.states@, red),
            },
    {
        let mut ptt = match PTT::build_ptt(informant, alphabet) {
            Ok(ptt) => ptt,
            Err((i, z)) => {
                return Err(InferenceFault::Conflict(i, z));
            },
        };
        let red = ptt.ostia_compress();
        proof {
            assert(red@[0] == 0usize);
            if ascii_outputs(informant@) {
                lemma_plain_text(ptt.states@, red@);
            }
        }
        proof {
            assert(merged(informant@, alphabet@, ptt, red@));
        }
        match ptt.compile(&red, pos) {
            Ok(g) => Ok(Inferred { ptt, red, g }),
            Err(_) => Err(InferenceFault::NotText),
        }
    }
}

} // verus!
