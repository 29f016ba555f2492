use crate::int_seq::{IntSeq, A, REFLECT};
use crate::p::{PView, PartialEdge, P, W};
use crate::v::V;
use vstd::prelude::*;

verus! {

#[verifier::external_type_specification]
#[verifier::external_body]
pub struct ExNonMaxUsize(nonmax::NonMaxUsize);

/// A state of a ranged graph that is not the sink.
pub type NonSink = nonmax::NonMaxUsize;

/// A state of a ranged graph; `None` is the sink, which rejects.
pub type State = Option<NonSink>;

/// The index that a state holds: what `NonMaxUsize::get` returns for it.
pub uninterp spec fn nonsink_index(state: nonmax::NonMaxUsize) -> usize;

/// `NonMaxUsize::new` of nonmax: the state with the given index, and nothing
/// for the one index that is kept free, the greatest.
#[verifier::external_body]
pub(crate) fn nonsink_new(index: usize) -> (r: Option<nonmax::NonMaxUsize>)
    ensures
        r.is_some() <==> index != usize::MAX,
        r.is_some() ==> nonsink_index(r.unwrap()) == index,
{
    nonmax::NonMaxUsize::new(index)
}

/// `NonMaxUsize::get` of nonmax: the index that the state was made with, which
/// is never the greatest.
#[verifier::external_body]
pub(crate) fn nonsink_get(state: &nonmax::NonMaxUsize) -> (r: usize)
    ensures
        r == nonsink_index(*state),
        r != usize::MAX,
{
    state.get()
}

/// The index of a state, where the sink has none.
pub open spec fn state_view(state: State) -> Option<usize> {
    match state {
        Some(s) => Some(nonsink_index(s)),
        None => None,
    }
}

/// What a transition is: its weight, its output and the index of its target.
pub struct TransitionView {
    pub weight: W,
    pub output: Seq<char>,
    pub target: Option<usize>,
}

/// Anything that leads to a state under a weight and with an output.
pub trait Trans: Sized {
    spec fn trans_view(&self) -> TransitionView;

    fn weight(&self) -> (r: W)
        ensures
            r == self.trans_view().weight,
    ;

    fn output(&self) -> (r: &IntSeq)
        ensures
            r@ == self.trans_view().output,
    ;

    fn target(&self) -> (r: State)
        ensures
            state_view(r) == self.trans_view().target,
    ;
}

/// A transition of a ranged graph.
#[derive(Debug)]
pub struct Transition {
    pub weight: W,
    pub output: IntSeq,
    pub target: State,
}

impl View for Transition {
    type V = TransitionView;

    open spec fn view(&self) -> TransitionView {
        TransitionView {
            weight: self.weight,
            output: self.output@,
            target: state_view(self.target),
        }
    }
}

impl Trans for Transition {
    open spec fn trans_view(&self) -> TransitionView {
        self@
    }

    fn weight(&self) -> (r: W) {
        self.weight
    }

    fn output(&self) -> (r: &IntSeq) {
        &self.output
    }

    fn target(&self) -> (r: State) {
        self.target
    }
}

impl Transition {
    pub fn new(weight: W, output: IntSeq, target: State) -> (r: Self)
        ensures
            r@ == (TransitionView { weight, output: output@, target: state_view(target) }),
    {
        Transition { weight, output, target }
    }

    /// The transition to `target` with the weight and the output of `edge`.
    pub fn from<T: PartialEdge>(edge: T, target: State) -> (r: Self)
        ensures
            r@ == (TransitionView {
                weight: edge.partial_view().weight,
                output: edge.partial_view().output,
                target: state_view(target),
            }),
    {
        let (weight, output) = edge.destruct();
        Transition::new(weight, output, target)
    }

    /// The transition to `target` with weight 0 and no output.
    pub fn neutral(target: State) -> (r: Self)
        ensures
            r@ == (TransitionView { weight: 0, output: Seq::empty(), target: state_view(target) }),
    {
        Transition::new(0, IntSeq::epsilon(), target)
    }
}

/// What a list of transitions is.
pub open spec fn transitions_view(edges: Seq<Transition>) -> Seq<TransitionView> {
    edges.map_values(|t: Transition| t@)
}

/// What a range is: the last symbol that it covers, and the transitions that
/// can be taken on the symbols that it covers.
pub struct RangeView {
    pub input: A,
    pub edges: Seq<TransitionView>,
}

/// One entry of the dispatch table of a state: the transitions for the symbols
/// behind the previous entry up to and including `input`.
#[derive(Debug)]
pub struct Range {
    pub input: A,
    pub edges: Vec<Transition>,
}

impl View for Range {
    type V = RangeView;

    open spec fn view(&self) -> RangeView {
        RangeView { input: self.input, edges: transitions_view(self.edges@) }
    }
}

impl Range {
    pub fn new(input: A, edges: Vec<Transition>) -> (r: Self)
        ensures
            r@ == (RangeView { input, edges: transitions_view(edges@) }),
    {
        Range { input, edges }
    }

    /// The range up to `input` without transitions.
    pub fn empty(input: A) -> (r: Self)
        ensures
            r@ == (RangeView { input, edges: Seq::empty() }),
    {
        let r = Range { input, edges: Vec::new() };
        assert(r@.edges =~= Seq::empty());
        r
    }

    pub fn input(&self) -> (r: A)
        ensures
            r == self@.input,
    {
        self.input
    }

    pub fn edges(&self) -> (r: &Vec<Transition>)
        ensures
            transitions_view(r@) == self@.edges,
    {
        &self.edges
    }

    pub fn transition(&self, idx: usize) -> (r: &Transition)
        requires
            idx < self@.edges.len(),
        ensures
            r@ == self@.edges[idx as int],
    {
        &self.edges[idx]
    }
}

/// Whether the ranges cover every symbol but the reflection marker exactly
/// once: their last symbols increase strictly, the first lies above the
/// marker, and the last is the greatest symbol.
pub open spec fn full_sigma_covered(ranges: Seq<RangeView>) -> bool {
    &&& ranges.len() > 0
    &&& forall|i: int, j: int|
        0 <= i < j < ranges.len() ==> (#[trigger] ranges[i]).input < (#[trigger] ranges[j]).input
    &&& REFLECT < ranges[0].input
    &&& ranges[ranges.len() - 1].input == A::MAX
}

/// The index of the range that covers `symbol`: the first range whose last
/// symbol is not below it.
pub open spec fn range_index(ranges: Seq<RangeView>, symbol: A) -> int
    decreases ranges.len(),
{
    if ranges.len() == 0 {
        0
    } else if ranges[0].input >= symbol {
        0
    } else {
        1 + range_index(ranges.drop_first(), symbol)
    }
}

/// In a covering list of ranges the covering range is in range, reaches the
/// symbol, and no range before it does.
pub proof fn lemma_range_index(ranges: Seq<RangeView>, symbol: A)
    requires
        ranges.len() > 0,
        ranges[ranges.len() - 1].input == A::MAX,
    ensures
        0 <= range_index(ranges, symbol) < ranges.len(),
        ranges[range_index(ranges, symbol)].input >= symbol,
        forall|i: int| 0 <= i < range_index(ranges, symbol) ==> (#[trigger] ranges[i]).input < symbol,
    decreases ranges.len(),
{
    if ranges[0].input >= symbol {
    } else {
        let rest = ranges.drop_first();
        assert(rest.len() > 0);
        assert(rest[rest.len() - 1] == ranges[ranges.len() - 1]);
        lemma_range_index(rest, symbol);
        assert forall|i: int| 0 <= i < range_index(ranges, symbol) implies (
        #[trigger] ranges[i]).input < symbol by {
            if i > 0 {
                assert(ranges[i] == rest[i - 1]);
            }
        }
        assert(ranges[range_index(ranges, symbol)] == rest[range_index(rest, symbol)]);
    }
}

/// A range that reaches the symbol while its predecessor does not is the
/// covering one.
pub proof fn lemma_range_index_unique(ranges: Seq<RangeView>, symbol: A, k: int)
    requires
        0 <= k < ranges.len(),
        ranges[k].input >= symbol,
        forall|i: int| 0 <= i < k ==> (#[trigger] ranges[i]).input < symbol,
    ensures
        range_index(ranges, symbol) == k,
    decreases ranges.len(),
{
    if k == 0 {
    } else {
        assert(ranges[0].input < symbol);
        let rest = ranges.drop_first();
        assert forall|i: int| 0 <= i < k - 1 implies (#[trigger] rest[i]).input < symbol by {
            assert(rest[i] == ranges[i + 1]);
        }
        lemma_range_index_unique(rest, symbol, k - 1);
    }
}

/// The dispatch table of one state.
#[derive(Debug)]
pub struct Transitions(pub Vec<Range>);

impl View for Transitions {
    type V = Seq<RangeView>;

    open spec fn view(&self) -> Seq<RangeView> {
        self.0@.map_values(|r: Range| r@)
    }
}

impl Transitions {
    pub fn with_capacity(cap: usize) -> (r: Self)
        ensures
            r@ == Seq::<RangeView>::empty(),
    {
        let r = Transitions(Vec::with_capacity(cap));
        assert(r@ =~= Seq::<RangeView>::empty());
        r
    }

    pub fn push(&mut self, range: Range)
        ensures
            final(self)@ == old(self)@.push(range@),
    {
        self.0.push(range);
        assert(self@ =~= old(self)@.push(range@));
    }

    pub fn last(&self) -> (r: Option<&Range>)
        ensures
            self@.len() == 0 ==> r.is_none(),
            self@.len() > 0 ==> r.is_some() && r.unwrap()@ == self@[self@.len() - 1],
    {
        if self.0.len() == 0 {
            None
        } else {
            Some(&self.0[self.0.len() - 1])
        }
    }

    pub fn len(&self) -> (r: usize)
        ensures
            r == self@.len(),
    {
        self.0.len()
    }

    /// The range at `index`.
    pub fn get(&self, index: usize) -> (r: &Range)
        requires
            index < self@.len(),
        ensures
            r@ == self@[index as int],
    {
        &self.0[index]
    }

    /// The transitions that can be taken on `input_symbol`.
    pub fn binary_search(&self, input_symbol: A) -> (r: &Vec<Transition>)
        requires
            full_sigma_covered(self@),
        ensures
            transitions_view(r@) == self@[range_index(self@, input_symbol)].edges,
    {
        &self.0[self.binary_search_index(input_symbol)].edges
    }

    /// The index of the range that covers `input_symbol`.
    pub fn binary_search_index(&self, input_symbol: A) -> (r: usize)
        requires
            full_sigma_covered(self@),
        ensures
            r == range_index(self@, input_symbol),
            r < self@.len(),
    {
        let mut low: usize = 0;
        let mut high: usize = self.0.len() - 1;
        while low < high
            invariant
                low <= high < self@.len(),
                full_sigma_covered(self@),
                self@[high as int].input >= input_symbol,
                forall|i: int| 0 <= i < low ==> (#[trigger] self@[i]).input < input_symbol,
            decreases high - low,
        {
            let mid = low + (high - low) / 2;
            let mid_val = self.0[mid].input;
            if mid_val < input_symbol {
                assert forall|i: int| 0 <= i < mid + 1 implies (#[trigger] self@[i]).input
                    < input_symbol by {
                    if i < mid {
                        assert(self@[i].input < self@[mid as int].input);
                    }
                }
                low = mid + 1;
            } else {
                high = mid;
            }
        }
        proof {
            lemma_range_index_unique(self@, input_symbol, low as int);
        }
        low
    }

    /// Whether the ranges cover every symbol; see `full_sigma_covered`.
    pub fn is_full_sigma_covered(&self) -> (r: bool)
        ensures
            r == full_sigma_covered(self@),
    {
        let n = self.0.len();
        if n == 0 {
            return false;
        }
        if !(REFLECT < self.0[0].input) || self.0[n - 1].input != A::MAX {
            return false;
        }
        let mut i: usize = 1;
        while i < n
            invariant
                1 <= i <= n,
                n == self@.len(),
                forall|a: int, b: int|
                    0 <= a < b < i ==> (#[trigger] self@[a]).input < (#[trigger] self@[b]).input,
            decreases n - i,
        {
            if !(self.0[i - 1].input < self.0[i].input) {
                assert(!(self@[i - 1].input < self@[i as int].input));
                return false;
            }
            assert forall|a: int, b: int| 0 <= a < b < i + 1 implies (#[trigger] self@[a]).input < (
            #[trigger] self@[b]).input by {
                if b == i && a < i - 1 {
                    assert(self@[a].input < self@[i - 1].input);
                }
            }
            i = i + 1;
        }
        true
    }
}

/// What a ranged graph is.
pub struct RGView {
    /// The dispatch table of each state.
    pub graph: Seq<Seq<RangeView>>,
    /// For each state the partial edge under which it accepts, if it does.
    pub accepting: Seq<Option<PView>>,
    /// For each state its provenance.
    pub index_to_state: Seq<V>,
    /// The index of the initial state.
    pub initial: usize,
}

/// Whether every transition of the table leads to the sink or to one of the
/// first `n` states.
pub open spec fn targets_within(ranges: Seq<RangeView>, n: nat) -> bool {
    forall|i: int, j: int|
        0 <= i < ranges.len() && 0 <= j < ranges[i].edges.len() ==> (
        #[trigger] ranges[i].edges[j]).target.is_none() || ranges[i].edges[j].target.unwrap() < n
}

impl RGView {
    /// The number of states.
    pub open spec fn len(self) -> nat {
        self.graph.len()
    }

    /// The three tables have one entry per state, the initial state is a state,
    /// the table of every state covers every symbol, and every transition leads
    /// to a state or to the sink.
    pub open spec fn wf(self) -> bool {
        &&& self.accepting.len() == self.graph.len()
        &&& self.index_to_state.len() == self.graph.len()
        &&& self.initial < self.graph.len()
        &&& forall|s: int|
            0 <= s < self.graph.len() ==> full_sigma_covered(#[trigger] self.graph[s])
        &&& forall|s: int|
            0 <= s < self.graph.len() ==> targets_within(#[trigger] self.graph[s], self.graph.len())
    }
}

/// What a list of optional partial edges is.
pub open spec fn accepting_view(accepting: Seq<Option<P>>) -> Seq<Option<PView>> {
    accepting.map_values(
        |p: Option<P>|
            match p {
                Some(p) => Some(p@),
                None => None,
            },
    )
}

/// A ranged graph: the dispatch tables of a transducer, one per state. States
/// are named by their index, and every table covers every symbol.
#[derive(Debug)]
pub struct RangedGraph {
    graph: Vec<Transitions>,
    accepting: Vec<Option<P>>,
    index_to_state: Vec<V>,
    initial: NonSink,
}

impl View for RangedGraph {
    type V = RGView;

    closed spec fn view(&self) -> RGView {
        RGView {
            graph: self.graph@.map_values(|t: Transitions| t@),
            accepting: accepting_view(self.accepting@),
            index_to_state: self.index_to_state@,
            initial: nonsink_index(self.initial),
        }
    }
}

impl RangedGraph {
    #[verifier::type_invariant]
    spec fn well_formed(&self) -> bool {
        self@.wf()
    }

    pub fn new(
        graph: Vec<Transitions>,
        accepting: Vec<Option<P>>,
        index_to_state: Vec<V>,
        initial: NonSink,
    ) -> (r: Self)
        requires
            (RGView {
                graph: graph@.map_values(|t: Transitions| t@),
                accepting: accepting_view(accepting@),
                index_to_state: index_to_state@,
                initial: nonsink_index(initial),
            }).wf(),
        ensures
            r@ == (RGView {
                graph: graph@.map_values(|t: Transitions| t@),
                accepting: accepting_view(accepting@),
                index_to_state: index_to_state@,
                initial: nonsink_index(initial),
            }),
    {
        RangedGraph { graph, accepting, index_to_state, initial }
    }

    /// Every ranged graph is well formed. This call costs nothing and brings
    /// that fact to where it is needed.
    pub fn validity(&self)
        ensures
            self@.wf(),
    {
        proof {
            use_type_invariant(self);
        }
    }

    /// The initial state.
    pub fn init(&self) -> (r: NonSink)
        ensures
            nonsink_index(r) == self@.initial,
            self@.initial < self@.len(),
    {
        proof {
            use_type_invariant(self);
        }
        self.initial
    }

    pub fn graph(&self) -> (r: &Vec<Transitions>)
        ensures
            r@.map_values(|t: Transitions| t@) == self@.graph,
    {
        &self.graph
    }

    /// The dispatch table of `state`.
    pub fn transitions(&self, state: NonSink) -> (r: &Transitions)
        requires
            nonsink_index(state) < self@.len(),
        ensures
            r@ == self@.graph[nonsink_index(state) as int],
            full_sigma_covered(r@),
            targets_within(r@, self@.len()),
    {
        proof {
            use_type_invariant(self);
            assert(full_sigma_covered(self@.graph[nonsink_index(state) as int]));
            assert(targets_within(self@.graph[nonsink_index(state) as int], self@.len()));
        }
        &self.graph[nonsink_get(&state)]
    }

    /// The dispatch table of the state with the given index.
    pub fn transitions_at(&self, state: usize) -> (r: &Transitions)
        requires
            state < self@.len(),
        ensures
            r@ == self@.graph[state as int],
            full_sigma_covered(r@),
            targets_within(r@, self@.len()),
    {
        proof {
            use_type_invariant(self);
            assert(full_sigma_covered(self@.graph[state as int]));
            assert(targets_within(self@.graph[state as int], self@.len()));
        }
        &self.graph[state]
    }

    /// The partial edge under which `state` accepts, if it does.
    pub fn accepting(&self, state: NonSink) -> (r: &Option<P>)
        requires
            nonsink_index(state) < self@.len(),
        ensures
            crate::g::epsilon_view(*r) == self@.accepting[nonsink_index(state) as int],
    {
        proof {
            use_type_invariant(self);
        }
        &self.accepting[nonsink_get(&state)]
    }

    /// The partial edge under which the state with the given index accepts.
    pub fn accepting_at(&self, state: usize) -> (r: &Option<P>)
        requires
            state < self@.len(),
        ensures
            crate::g::epsilon_view(*r) == self@.accepting[state as int],
    {
        proof {
            use_type_invariant(self);
        }
        &self.accepting[state]
    }

    /// The provenance of `state`.
    pub fn index_to_state(&self, state: NonSink) -> (r: &V)
        requires
            nonsink_index(state) < self@.len(),
        ensures
            *r == self@.index_to_state[nonsink_index(state) as int],
    {
        proof {
            use_type_invariant(self);
        }
        &self.index_to_state[nonsink_get(&state)]
    }

    /// The number of states.
    pub fn len(&self) -> (r: usize)
        ensures
            r == self@.len(),
            r > 0,
    {
        proof {
            use_type_invariant(self);
        }
        self.graph.len()
    }
}

} // verus!
