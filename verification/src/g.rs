use crate::compilation_error::CompErr;
use crate::e::{EView, E};
use crate::int_seq::{symbols_of, unescape_symbols, IntSeq, A, REFLECT};
use crate::n::{clone_edges, edges_view, NView, NodeId, N};
use crate::p::{neutral_view, PView, P};
use crate::pool::Pool;
use crate::v::V;
use vstd::prelude::*;
use vstd::utf8::is_scalar;

verus! {

/// What a list of accepting states is: each state with its final partial edge.
pub open spec fn finals_view(finals: Seq<(NodeId, P)>) -> Seq<(NodeId, PView)> {
    finals.map_values(|x: (NodeId, P)| (x.0, x.1@))
}

/// What an optional partial edge is.
pub open spec fn epsilon_view(epsilon: Option<P>) -> Option<PView> {
    match epsilon {
        Some(p) => Some(p@),
        None => None,
    }
}

/// Whether every edge of the list has a non-empty interval and leads to one of
/// the first `n` nodes.
pub open spec fn edges_within(edges: Seq<(EView, NodeId)>, n: nat) -> bool {
    forall|i: int|
        0 <= i < edges.len() ==> (#[trigger] edges[i]).1 < n && edges[i].0.from_exclusive
            < edges[i].0.to_inclusive
}

/// Whether every edge of every node leads to a node of the same pool.
pub open spec fn pool_closed(nodes: Seq<NView>) -> bool {
    forall|k: int| 0 <= k < nodes.len() ==> edges_within((#[trigger] nodes[k]).outgoing, nodes.len())
}

/// Whether the accepting states are among the first `n` nodes, each listed once.
pub open spec fn finals_within(finals: Seq<(NodeId, PView)>, n: nat) -> bool {
    &&& forall|i: int| 0 <= i < finals.len() ==> (#[trigger] finals[i]).0 < n
    &&& forall|i: int, j: int|
        0 <= i < j < finals.len() ==> (#[trigger] finals[i]).0 != (#[trigger] finals[j]).0
}

/// What an intermediate graph is.
pub struct GView {
    /// The nodes that the graph owns, each under its index.
    pub nodes: Seq<NView>,
    /// The edges that enter the graph from outside.
    pub incoming: Seq<(EView, NodeId)>,
    /// The accepting states, in the order in which they were added.
    pub outgoing: Seq<(NodeId, PView)>,
    /// The partial edge under which the empty input is accepted, if it is.
    pub epsilon: Option<PView>,
}

impl GView {
    /// Every node that the graph mentions is one of its own nodes: the targets
    /// of the incoming edges, the accepting states, and the targets of the
    /// edges of every node. No accepting state is listed twice, and no edge has
    /// an empty interval.
    pub open spec fn wf(self) -> bool {
        &&& pool_closed(self.nodes)
        &&& edges_within(self.incoming, self.nodes.len())
        &&& finals_within(self.outgoing, self.nodes.len())
    }

    /// A graph is empty if it accepts nothing: no epsilon, and no way in or no
    /// way out.
    pub open spec fn is_empty(self) -> bool {
        self.epsilon.is_none() && (self.incoming.len() == 0 || self.outgoing.len() == 0)
    }
}

/// The graph that accepts nothing and owns nothing.
pub open spec fn empty_graph() -> GView {
    GView { nodes: Seq::empty(), incoming: Seq::empty(), outgoing: Seq::empty(), epsilon: None }
}

/// The graph that accepts only the empty input, under the partial edge `p`.
pub open spec fn epsilon_graph(p: PView) -> GView {
    GView { epsilon: Some(p), ..empty_graph() }
}

/// The graph of one node, entered by the given edges and accepting there.
pub open spec fn one_node_graph(incoming: Seq<(EView, NodeId)>, accept: PView, meta: V) -> GView {
    GView {
        nodes: seq![NView { meta, outgoing: Seq::empty() }],
        incoming,
        outgoing: seq![(0usize, accept)],
        epsilon: None,
    }
}

/// The edge that reads exactly `symbol`. A reflected edge gives the symbol
/// back as its output, a plain one has the neutral partial edge.
pub open spec fn symbol_edge(symbol: A, reflected: bool) -> EView {
    EView {
        from_exclusive: (symbol - 1) as A,
        to_inclusive: symbol,
        partial: if reflected {
            PView { weight: 0, output: seq![symbol as char] }
        } else {
            neutral_view()
        },
    }
}

/// The graph that reads the symbols `s` one after another: a chain of one node
/// per symbol. For no symbols it is the graph of the neutral epsilon.
pub open spec fn chain_graph(s: Seq<A>, reflected: bool, meta: V) -> GView {
    if s.len() == 0 {
        epsilon_graph(neutral_view())
    } else {
        GView {
            nodes: Seq::new(
                s.len(),
                |k: int|
                    NView {
                        meta,
                        outgoing: if k + 1 < s.len() {
                            seq![(symbol_edge(s[k + 1], reflected), (k + 1) as usize)]
                        } else {
                            Seq::empty()
                        },
                    },
            ),
            incoming: seq![(symbol_edge(s[0], reflected), 0usize)],
            outgoing: seq![((s.len() - 1) as usize, neutral_view())],
            epsilon: None,
        }
    }
}

/// The edges over the given intervals, all with the neutral partial edge and
/// all leading to the node `target`.
pub open spec fn range_edges(ranges: Seq<(A, A)>, target: NodeId) -> Seq<(EView, NodeId)> {
    ranges.map_values(
        |r: (A, A)|
            (EView { from_exclusive: r.0, to_inclusive: r.1, partial: neutral_view() }, target),
    )
}

/// The symbols that a literal stands for, where a backslash at the very end
/// stands for nothing.
pub open spec fn literal_symbols(s: Seq<A>) -> Seq<A>
    decreases s.len(),
{
    if s.len() == 0 {
        Seq::empty()
    } else if s[0] == 0x5C {
        if s.len() < 2 {
            Seq::empty()
        } else {
            seq![crate::ranged_serializers::unescaped(s[1])] + literal_symbols(
                s.subrange(2, s.len() as int),
            )
        }
    } else {
        seq![s[0]] + literal_symbols(s.subrange(1, s.len() as int))
    }
}

/// An intermediate graph: a nondeterministic transducer under construction. It
/// owns its nodes in a pool; edges and accepting states name them by index.
#[derive(Debug)]
pub struct G {
    pub pool: Pool,
    pub incoming: Vec<(E, NodeId)>,
    pub outgoing: Vec<(NodeId, P)>,
    pub epsilon: Option<P>,
}

impl View for G {
    type V = GView;

    open spec fn view(&self) -> GView {
        GView {
            nodes: self.pool@,
            incoming: edges_view(self.incoming@),
            outgoing: finals_view(self.outgoing@),
            epsilon: epsilon_view(self.epsilon),
        }
    }
}

/// A copy of an optional partial edge.
pub fn clone_epsilon(epsilon: &Option<P>) -> (r: Option<P>)
    ensures
        epsilon_view(r) == epsilon_view(*epsilon),
{
    match epsilon {
        Some(p) => Some(p.clone()),
        None => None,
    }
}

/// A copy of a list of accepting states.
pub fn clone_finals(finals: &Vec<(NodeId, P)>) -> (r: Vec<(NodeId, P)>)
    ensures
        finals_view(r@) == finals_view(finals@),
{
    let mut r: Vec<(NodeId, P)> = Vec::with_capacity(finals.len());
    let mut i: usize = 0;
    while i < finals.len()
        invariant
            i <= finals.len(),
            r.len() == i,
            forall|k: int| 0 <= k < i ==> (r@[k].0 == finals@[k].0 && r@[k].1@ == finals@[k].1@),
        decreases finals.len() - i,
    {
        let p = finals[i].1.clone();
        r.push((finals[i].0, p));
        i = i + 1;
    }
    assert(finals_view(r@) =~= finals_view(finals@));
    r
}

impl G {
    pub fn epsilon(&self) -> (r: &Option<P>)
        ensures
            epsilon_view(*r) == self@.epsilon,
    {
        &self.epsilon
    }

    pub fn set_epsilon(&mut self, eps: Option<P>)
        ensures
            final(self)@ == (GView { epsilon: epsilon_view(eps), ..old(self)@ }),
    {
        self.epsilon = eps;
    }

    pub fn incoming(&self) -> (r: &Vec<(E, NodeId)>)
        ensures
            edges_view(r@) == self@.incoming,
    {
        &self.incoming
    }

    pub fn incoming_mut(&mut self) -> (r: &mut Vec<(E, NodeId)>)
        ensures
            *r == old(self).incoming,
            final(self).incoming == *final(r),
            final(self).pool == old(self).pool,
            final(self).outgoing == old(self).outgoing,
            final(self).epsilon == old(self).epsilon,
    {
        &mut self.incoming
    }

    pub fn outgoing_mut(&mut self) -> (r: &mut Vec<(NodeId, P)>)
        ensures
            *r == old(self).outgoing,
            final(self).outgoing == *final(r),
            final(self).pool == old(self).pool,
            final(self).incoming == old(self).incoming,
            final(self).epsilon == old(self).epsilon,
    {
        &mut self.outgoing
    }

    /// The epsilon to read and the incoming edges to change, at the same time.
    pub fn epsilon_and_incoming(&mut self) -> (r: (&Option<P>, &mut Vec<(E, NodeId)>))
        ensures
            *r.0 == old(self).epsilon,
            *r.1 == old(self).incoming,
            final(self).incoming == *final(r.1),
            final(self).pool == old(self).pool,
            final(self).outgoing == old(self).outgoing,
            final(self).epsilon == old(self).epsilon,
    {
        (&self.epsilon, &mut self.incoming)
    }

    /// The epsilon to read and the accepting states to change, at the same time.
    pub fn epsilon_and_outgoing(&mut self) -> (r: (&Option<P>, &mut Vec<(NodeId, P)>))
        ensures
            *r.0 == old(self).epsilon,
            *r.1 == old(self).outgoing,
            final(self).outgoing == *final(r.1),
            final(self).pool == old(self).pool,
            final(self).incoming == old(self).incoming,
            final(self).epsilon == old(self).epsilon,
    {
        (&self.epsilon, &mut self.outgoing)
    }

    pub fn outgoing(&self) -> (r: &Vec<(NodeId, P)>)
        ensures
            finals_view(r@) == self@.outgoing,
    {
        &self.outgoing
    }

    pub fn set_outgoing(&mut self, outgoing: Vec<(NodeId, P)>)
        ensures
            final(self)@ == (GView { outgoing: finals_view(outgoing@), ..old(self)@ }),
    {
        self.outgoing = outgoing;
    }

    /// Gives up the graph and keeps its accepting states.
    pub fn rip_out_outgoing(self) -> (r: Vec<(NodeId, P)>)
        ensures
            finals_view(r@) == self@.outgoing,
    {
        let G { pool: _, incoming: _, outgoing, epsilon: _ } = self;
        outgoing
    }

    pub fn new_empty() -> (r: G)
        ensures
            r@ == empty_graph(),
            r@.wf(),
    {
        let r = G { pool: Pool::new(), incoming: Vec::new(), outgoing: Vec::new(), epsilon: None };
        assert(r@.incoming =~= Seq::empty());
        assert(r@.outgoing =~= Seq::empty());
        r
    }

    /// The graph of one node that is entered by `incoming` and accepts under
    /// `outgoing`.
    pub fn new_singleton(incoming: E, outgoing: P, meta: V) -> (r: G)
        ensures
            r@ == one_node_graph(seq![(incoming@, 0usize)], outgoing@, meta),
            r@.wf(),
    {
        let mut pool = Pool::new();
        let ghost _bound = incoming@;
        let from = crate::e::FullEdge::from_exclusive(&incoming);
        let v = N::new(meta, &mut pool);
        let mut inc: Vec<(E, NodeId)> = Vec::new();
        inc.push((incoming, v));
        let mut out: Vec<(NodeId, P)> = Vec::new();
        out.push((v, outgoing));
        let r = G { pool, incoming: inc, outgoing: out, epsilon: None };
        assert(r@.nodes =~= seq![NView { meta, outgoing: Seq::empty() }]);
        assert(r@.incoming =~= seq![(incoming@, 0usize)]);
        assert(r@.outgoing =~= seq![(0usize, outgoing@)]);
        r
    }

    pub fn new_epsilon(epsilon: P) -> (r: G)
        ensures
            r@ == epsilon_graph(epsilon@),
            r@.wf(),
    {
        let r = G {
            pool: Pool::new(),
            incoming: Vec::new(),
            outgoing: Vec::new(),
            epsilon: Some(epsilon),
        };
        assert(r@.incoming =~= Seq::empty());
        assert(r@.outgoing =~= Seq::empty());
        r
    }

    pub fn new_neutral_epsilon() -> (r: G)
        ensures
            r@ == epsilon_graph(neutral_view()),
            r@.wf(),
    {
        G::new_epsilon(P::neutral())
    }

    /// The graph of one accepting node that is entered by one neutral edge for
    /// each of the intervals `(from_exclusive, to_inclusive]`.
    pub fn new_from_ranges(ranges: &[(A, A)], meta: V) -> (r: G)
        requires
            forall|i: int| 0 <= i < ranges@.len() ==> (#[trigger] ranges@[i]).0 < ranges@[i].1,
        ensures
            r@ == one_node_graph(range_edges(ranges@, 0), neutral_view(), meta),
            r@.wf(),
    {
        let mut pool = Pool::new();
        let v = N::new(meta, &mut pool);
        let mut inc: Vec<(E, NodeId)> = Vec::with_capacity(ranges.len());
        let mut i: usize = 0;
        while i < ranges.len()
            invariant
                i <= ranges.len(),
                v == 0,
                forall|i: int| 0 <= i < ranges@.len() ==> (#[trigger] ranges@[i]).0 < ranges@[i].1,
                edges_view(inc@) == range_edges(ranges@.subrange(0, i as int), 0),
            decreases ranges.len() - i,
        {
            let (from, to) = ranges[i];
            let e = E::new_neutral(from, to);
            proof {
                assert(ranges@.subrange(0, i + 1) =~= ranges@.subrange(0, i as int).push(
                    ranges@[i as int],
                ));
                assert(edges_view(inc@.push((e, v))) =~= edges_view(inc@).push((e@, v)));
                assert(edges_view(inc@.push((e, v))) =~= range_edges(
                    ranges@.subrange(0, i + 1),
                    0,
                ));
            }
            inc.push((e, v));
            i = i + 1;
        }
        assert(ranges@.subrange(0, i as int) =~= ranges@);
        let mut out: Vec<(NodeId, P)> = Vec::new();
        out.push((v, P::neutral()));
        let r = G { pool, incoming: inc, outgoing: out, epsilon: None };
        assert(r@.nodes =~= seq![NView { meta, outgoing: Seq::empty() }]);
        assert(r@.outgoing =~= seq![(0usize, neutral_view())]);
        r
    }

    /// The graph that reads exactly `symbol` and gives no output.
    pub fn new_from_symbol(symbol: A, meta: V) -> (r: G)
        requires
            symbol > REFLECT,
        ensures
            r@ == one_node_graph(seq![(symbol_edge(symbol, false), 0usize)], neutral_view(), meta),
            r@.wf(),
    {
        G::new_singleton(E::new_neutral_from_symbol(symbol), P::neutral(), meta)
    }

    /// The graph that reads nothing and gives `output`.
    pub fn new_from_output_string(output: IntSeq) -> (r: G)
        ensures
            r@ == epsilon_graph(PView { weight: 0, output: output@ }),
            r@.wf(),
    {
        G::new_epsilon(P::new(0, output))
    }

    /// As `new_from_output_string`, for the output that the literal stands for.
    pub fn new_from_output_string_literal(pos: V, output: &str) -> (r: Result<G, CompErr>)
        ensures
            match unescape_symbols(symbols_of(output@)) {
                Some(t) => r.is_ok() && r.unwrap()@.wf() && r.unwrap()@.nodes.len() == 0
                    && r.unwrap()@.incoming.len() == 0 && r.unwrap()@.outgoing.len() == 0
                    && r.unwrap()@.epsilon.is_some() && r.unwrap()@.epsilon.unwrap().weight == 0
                    && symbols_of(r.unwrap()@.epsilon.unwrap().output) == t,
                None => r matches Err(CompErr::Parse(p, m)) && p == pos && m@
                    == "String literal has dangling backslash"@,
            },
    {
        match IntSeq::from_literal(pos, output) {
            Ok(s) => Ok(G::new_from_output_string(s)),
            Err(e) => Err(e),
        }
    }

    /// The graph that reads the given symbols one after another. With
    /// `reflected` each symbol is also given back as output.
    pub fn new_from_iter(symbols: &[A], reflected: bool, meta: V) -> (r: G)
        requires
            forall|i: int| 0 <= i < symbols@.len() ==> #[trigger] symbols@[i] > REFLECT,
            reflected ==> forall|i: int|
                0 <= i < symbols@.len() ==> is_scalar(#[trigger] symbols@[i]),
        ensures
            r@ == chain_graph(symbols@, reflected, meta),
            r@.wf(),
    {
        let n = symbols.len();
        if n == 0 {
            return G::new_neutral_epsilon();
        }
        let mut pool = Pool::new();
        let init = N::new(meta, &mut pool);
        let mut last = init;
        let mut i: usize = 1;
        while i < n
            invariant
                1 <= i <= n,
                n == symbols@.len(),
                last == i - 1,
                pool@.len() == i,
                forall|i: int| 0 <= i < symbols@.len() ==> #[trigger] symbols@[i] > REFLECT,
                reflected ==> forall|i: int|
                    0 <= i < symbols@.len() ==> is_scalar(#[trigger] symbols@[i]),
                forall|k: int|
                    0 <= k < i ==> #[trigger] pool@[k] == (NView {
                        meta,
                        outgoing: if k + 1 < i {
                            seq![(symbol_edge(symbols@[k + 1], reflected), (k + 1) as usize)]
                        } else {
                            Seq::empty()
                        },
                    }),
            decreases n - i,
        {
            let next = N::new(meta, &mut pool);
            let e = G::produce_edge(symbols[i], reflected);
            N::push(last, (e, next), &mut pool);
            proof {
                assert(Seq::<(EView, NodeId)>::empty().push(
                    (symbol_edge(symbols@[i as int], reflected), i),
                ) =~= seq![(symbol_edge(symbols@[i as int], reflected), i)]);
            }
            last = next;
            i = i + 1;
        }
        let mut out: Vec<(NodeId, P)> = Vec::new();
        out.push((last, P::neutral()));
        let mut inc: Vec<(E, NodeId)> = Vec::new();
        inc.push((G::produce_edge(symbols[0], reflected), init));
        let r = G { pool, incoming: inc, outgoing: out, epsilon: None };
        assert(r@.nodes =~= chain_graph(symbols@, reflected, meta).nodes);
        assert(r@.incoming =~= chain_graph(symbols@, reflected, meta).incoming);
        assert(r@.outgoing =~= chain_graph(symbols@, reflected, meta).outgoing);
        r
    }

    /// The edge that reads exactly `symbol`; see `symbol_edge`.
    pub fn produce_edge(symbol: A, reflected: bool) -> (r: E)
        requires
            symbol > REFLECT,
            reflected ==> is_scalar(symbol),
        ensures
            r@ == symbol_edge(symbol, reflected),
    {
        if reflected {
            let output = IntSeq::singleton(symbol);
            E::new_from_symbol(symbol, P::new(0, output.unwrap()))
        } else {
            E::new_neutral_from_symbol(symbol)
        }
    }

    pub fn new_from_codepoints(symbols: &[A], meta: V) -> (r: G)
        requires
            forall|i: int| 0 <= i < symbols@.len() ==> #[trigger] symbols@[i] > REFLECT,
        ensures
            r@ == chain_graph(symbols@, false, meta),
            r@.wf(),
    {
        G::new_from_iter(symbols, false, meta)
    }

    pub fn new_from_reflected_codepoints(symbols: &[A], meta: V) -> (r: G)
        requires
            forall|i: int|
                0 <= i < symbols@.len() ==> #[trigger] symbols@[i] > REFLECT && is_scalar(
                    symbols@[i],
                ),
        ensures
            r@ == chain_graph(symbols@, true, meta),
            r@.wf(),
    {
        G::new_from_iter(symbols, true, meta)
    }

    /// The graph that reads the characters of `s` and gives no output.
    pub fn new_from_string(s: &str, meta: V) -> (r: G)
        requires
            forall|i: int| 0 <= i < s@.len() ==> #[trigger] s@[i] != '\0',
        ensures
            r@ == chain_graph(symbols_of(s@), false, meta),
            r@.wf(),
    {
        let symbols = IntSeq::from(s).to_symbols();
        proof {
            assert forall|i: int| 0 <= i < symbols@.len() implies #[trigger] symbols@[i]
                > REFLECT by {
                if symbols@[i] == 0 {
                    vstd::utf8::char_u32_cast(s@[i], 0u32);
                }
            }
        }
        G::new_from_iter(symbols.as_slice(), false, meta)
    }

    /// The graph that reads the characters of `s` and gives them back.
    pub fn new_from_reflected_string(s: &str, meta: V) -> (r: G)
        requires
            forall|i: int| 0 <= i < s@.len() ==> #[trigger] s@[i] != '\0',
        ensures
            r@ == chain_graph(symbols_of(s@), true, meta),
            r@.wf(),
    {
        let symbols = IntSeq::from(s).to_symbols();
        proof {
            assert forall|i: int| 0 <= i < symbols@.len() implies #[trigger] symbols@[i]
                > REFLECT && is_scalar(symbols@[i]) by {
                vstd::utf8::char_is_scalar(s@[i]);
                if symbols@[i] == 0 {
                    vstd::utf8::char_u32_cast(s@[i], 0u32);
                }
            }
        }
        G::new_from_iter(symbols.as_slice(), true, meta)
    }

    pub fn is_empty(&self) -> (r: bool)
        ensures
            r == self@.is_empty(),
    {
        self.epsilon.is_none() && (self.incoming.len() == 0 || self.outgoing.len() == 0)
    }

    /// A node outside the pool from which the graph can be entered: it holds a
    /// copy of every incoming edge.
    pub fn make_unique_initial_state(&self, state: V) -> (r: N)
        ensures
            r@ == (NView { meta: state, outgoing: self@.incoming }),
    {
        N { meta: state, outgoing: clone_edges(&self.incoming) }
    }

    /// Gives up every node of the graph. What is left is the empty graph.
    pub fn delete(&mut self)
        ensures
            final(self)@ == empty_graph(),
    {
        self.pool.clear();
        self.incoming.clear();
        self.outgoing.clear();
        self.epsilon = None;
        assert(self@.incoming =~= Seq::empty());
        assert(self@.outgoing =~= Seq::empty());
    }
}

impl Clone for G {
    /// A graph of its own with the same nodes under the same names.
    fn clone(&self) -> (r: Self)
        ensures
            r@ == self@,
    {
        G {
            pool: self.pool.clone(),
            incoming: clone_edges(&self.incoming),
            outgoing: clone_finals(&self.outgoing),
            epsilon: clone_epsilon(&self.epsilon),
        }
    }
}

} // verus!
