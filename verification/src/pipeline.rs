use crate::int_seq::{symbols_of, IntSeq, A};
use crate::ranged_evaluation::{all_scalars, evaluate, StateToIndexTable};
use crate::ranged_graph::RangedGraph;
use crate::v::V;
use std::rc::Rc;
use vstd::prelude::*;

verus! {

/// A stage of a pipeline that is computed outside the library. What it gives
/// must depend on its input alone, and `model` says what that is: the output,
/// or nothing where the input is rejected.
pub trait ExternalStage {
    spec fn model(&self, input: Seq<A>) -> Option<Seq<A>>;

    /// Writes the output for `input` into `output` and says whether the input
    /// was accepted. A stage that fails rejects.
    fn apply(&self, input: &Vec<A>, output: &mut Vec<A>) -> (r: bool)
        requires
            old(output)@.len() == 0,
        ensures
            r == self.model(input@).is_some(),
            r ==> final(output)@ == self.model(input@).unwrap(),
    ;
}

/// A stage that is never there: for pipelines without external stages.
#[derive(Debug, Clone, Copy)]
pub struct NoExternal {}

impl ExternalStage for NoExternal {
    open spec fn model(&self, input: Seq<A>) -> Option<Seq<A>> {
        None
    }

    fn apply(&self, input: &Vec<A>, output: &mut Vec<A>) -> (r: bool) {
        false
    }
}

/// One stage of a pipeline.
pub enum PipelineNode<X: ExternalStage> {
    /// A transducer, with the place where it was defined.
    Automaton(Rc<RangedGraph>, V),
    /// A function from outside, with the place where it was named.
    External(X, V),
    /// Two pipelines, of which the second is tried where the first rejects.
    Alternative(Pipeline<X>, Pipeline<X>),
}

/// A sequence of stages, each of which works on the output of the one before.
pub struct Pipeline<X: ExternalStage> {
    pub pipes: Vec<PipelineNode<X>>,
    pub max_states: usize,
}

/// What a stage gives for the input, or nothing where it rejects.
pub open spec fn run_node<X: ExternalStage>(node: PipelineNode<X>, input: Seq<A>) -> Option<Seq<A>>
    decreases node, 0nat,
{
    match node {
        PipelineNode::Automaton(r, _) => evaluate(r@, input),
        PipelineNode::External(f, _) => f.model(input),
        PipelineNode::Alternative(l, r) => match run(l, input, l.pipes@.len()) {
            Some(out) => Some(out),
            None => run(r, input, r.pipes@.len()),
        },
    }
}

/// What the first `n` stages of the pipeline give for the input, or nothing
/// where one of them rejects.
pub open spec fn run<X: ExternalStage>(p: Pipeline<X>, input: Seq<A>, n: nat) -> Option<Seq<A>>
    decreases p, n,
{
    if n == 0 || n > p.pipes@.len() {
        Some(input)
    } else {
        match run(p, input, (n - 1) as nat) {
            Some(mid) => run_node(p.pipes@[n - 1], mid),
            None => None,
        }
    }
}

/// Whether `max_states` of a stage's pipelines, and of the pipeline itself, is
/// at least the number of states of every transducer in it.
pub open spec fn node_fits<X: ExternalStage>(node: PipelineNode<X>, max_states: usize) -> bool
    decreases node, 0nat,
{
    match node {
        PipelineNode::Automaton(r, _) => r@.len() <= max_states,
        PipelineNode::External(_, _) => true,
        PipelineNode::Alternative(l, r) => fits(l, l.pipes@.len()) && fits(r, r.pipes@.len())
            && l.max_states <= max_states && r.max_states <= max_states,
    }
}

/// Whether the first `n` stages of the pipeline fit its `max_states`.
pub open spec fn fits<X: ExternalStage>(p: Pipeline<X>, n: nat) -> bool
    decreases p, n,
{
    if n == 0 || n > p.pipes@.len() {
        true
    } else {
        fits(p, (n - 1) as nat) && node_fits(p.pipes@[n - 1], p.max_states)
    }
}

/// A pipeline that fits a bound fits every greater one.
pub proof fn lemma_node_fits_more<X: ExternalStage>(node: PipelineNode<X>, a: usize, b: usize)
    requires
        node_fits(node, a),
        a <= b,
    ensures
        node_fits(node, b),
{
}

/// What the first stages give depends on these stages only.
pub proof fn lemma_run_prefix<X: ExternalStage>(p: Pipeline<X>, q: Pipeline<X>, input: Seq<A>, n: nat)
    requires
        n <= p.pipes@.len(),
        n <= q.pipes@.len(),
        forall|i: int| 0 <= i < n ==> p.pipes@[i] == q.pipes@[i],
    ensures
        run(p, input, n) == run(q, input, n),
    decreases n,
{
    if n > 0 {
        lemma_run_prefix(p, q, input, (n - 1) as nat);
    }
}

/// Stages that follow other stages work on what those give.
pub proof fn lemma_run_concat<X: ExternalStage>(
    p: Pipeline<X>,
    l: Pipeline<X>,
    r: Pipeline<X>,
    input: Seq<A>,
    m: nat,
)
    requires
        p.pipes@ == l.pipes@ + r.pipes@,
        m <= r.pipes@.len(),
    ensures
        run(p, input, l.pipes@.len() + m) == match run(l, input, l.pipes@.len()) {
            Some(mid) => run(r, mid, m),
            None => None,
        },
    decreases m,
{
    if m == 0 {
        lemma_run_prefix(p, l, input, l.pipes@.len());
    } else {
        lemma_run_concat(p, l, r, input, (m - 1) as nat);
        assert(p.pipes@[l.pipes@.len() + m - 1] == r.pipes@[m - 1]);
    }
}

/// Stages that fit a bound fit every greater one, in whatever pipeline they
/// stand.
pub proof fn lemma_fits_more<X: ExternalStage>(p: Pipeline<X>, q: Pipeline<X>, offset: nat, n: nat)
    requires
        n <= p.pipes@.len(),
        offset + n <= q.pipes@.len(),
        forall|i: int| 0 <= i < n ==> p.pipes@[i] == q.pipes@[offset + i],
        fits(p, n),
        p.max_states <= q.max_states,
    ensures
        forall|i: int| 0 <= i < n ==> node_fits(#[trigger] q.pipes@[offset + i], q.max_states),
    decreases n,
{
    if n > 0 {
        lemma_fits_more(p, q, offset, (n - 1) as nat);
        lemma_node_fits_more(p.pipes@[n - 1], p.max_states, q.max_states);
    }
}

/// A pipeline whose stages all fit its bound fits it.
pub proof fn lemma_fits_all<X: ExternalStage>(q: Pipeline<X>, n: nat)
    requires
        n <= q.pipes@.len(),
        forall|i: int| 0 <= i < n ==> node_fits(#[trigger] q.pipes@[i], q.max_states),
    ensures
        fits(q, n),
    decreases n,
{
    if n > 0 {
        lemma_fits_all(q, (n - 1) as nat);
    }
}

/// The symbols in the opposite order.
pub fn reversed(symbols: &Vec<A>) -> (r: Vec<A>)
    ensures
        r@ == symbols@.reverse(),
{
    let n = symbols.len();
    let mut r: Vec<A> = Vec::with_capacity(n);
    let mut i: usize = 0;
    while i < n
        invariant
            i <= n,
            n == symbols@.len(),
            r@.len() == i,
            forall|k: int| 0 <= k < i ==> r@[k] == symbols@[n - 1 - k],
        decreases n - i,
    {
        r.push(symbols[n - 1 - i]);
        i = i + 1;
    }
    assert(r@ =~= symbols@.reverse());
    r
}

impl<X: ExternalStage> Pipeline<X> {
    /// Whether the scratchpad size that the pipeline names suffices for every
    /// transducer in it.
    pub open spec fn wf(&self) -> bool {
        fits(*self, self.pipes@.len())
    }

    /// What the pipeline gives for the input, or nothing where it rejects.
    pub open spec fn output(&self, input: Seq<A>) -> Option<Seq<A>> {
        run(*self, input, self.pipes@.len())
    }

    /// The pipeline of one transducer.
    pub fn new(r: RangedGraph, pos: V) -> (p: Self)
        ensures
            p.wf(),
            p.max_states == r@.len(),
            forall|input: Seq<A>| #[trigger] p.output(input) == evaluate(r@, input),
    {
        let max_states = r.len();
        let mut pipes: Vec<PipelineNode<X>> = Vec::new();
        pipes.push(PipelineNode::Automaton(Rc::new(r), pos));
        let p = Pipeline { pipes, max_states };
        proof {
            reveal_with_fuel(fits, 2);
            assert(fits(p, 0));
            assert(node_fits(p.pipes@[0], p.max_states));
            assert forall|input: Seq<A>| #[trigger] p.output(input) == evaluate(r@, input) by {
                reveal_with_fuel(run, 2);
                assert(run(p, input, 0) == Some(input));
            }
        }
        p
    }

    /// The pipeline of one stage from outside.
    pub fn external(f: X, pos: V) -> (p: Self)
        ensures
            p.wf(),
            p.max_states == 0,
            forall|input: Seq<A>| #[trigger] p.output(input) == f.model(input),
    {
        let mut pipes: Vec<PipelineNode<X>> = Vec::new();
        pipes.push(PipelineNode::External(f, pos));
        let p = Pipeline { pipes, max_states: 0 };
        proof {
            reveal_with_fuel(fits, 2);
            assert(fits(p, 0));
            assert forall|input: Seq<A>| #[trigger] p.output(input) == f.model(input) by {
                reveal_with_fuel(run, 2);
                assert(run(p, input, 0) == Some(input));
            }
        }
        p
    }

    /// The pipeline that gives what `self` gives and, where `self` rejects,
    /// what `rhs` gives.
    pub fn alternative(self, rhs: Self) -> (p: Self)
        requires
            self.wf(),
            rhs.wf(),
        ensures
            p.wf(),
            p.max_states == if self.max_states >= rhs.max_states {
                self.max_states
            } else {
                rhs.max_states
            },
            forall|input: Seq<A>| #[trigger]
                p.output(input) == match self.output(input) {
                    Some(out) => Some(out),
                    None => rhs.output(input),
                },
    {
        let max_states = if self.max_states >= rhs.max_states {
            self.max_states
        } else {
            rhs.max_states
        };
        let mut pipes: Vec<PipelineNode<X>> = Vec::new();
        pipes.push(PipelineNode::Alternative(self, rhs));
        let p = Pipeline { pipes, max_states };
        proof {
            reveal_with_fuel(fits, 2);
            assert(fits(p, 0));
            assert(node_fits(p.pipes@[0], p.max_states));
            assert forall|input: Seq<A>| #[trigger]
                p.output(input) == match self.output(input) {
                    Some(out) => Some(out),
                    None => rhs.output(input),
                } by {
                reveal_with_fuel(run, 2);
                assert(run(p, input, 0) == Some(input));
            }
        }
        p
    }

    /// The pipeline of the stages of `self` followed by those of `rhs`.
    pub fn composition(self, rhs: Self) -> (p: Self)
        requires
            self.wf(),
            rhs.wf(),
        ensures
            p.wf(),
            p.max_states == if self.max_states >= rhs.max_states {
                self.max_states
            } else {
                rhs.max_states
            },
            forall|input: Seq<A>| #[trigger]
                p.output(input) == match self.output(input) {
                    Some(mid) => rhs.output(mid),
                    None => None,
                },
    {
        let mut lhs = self;
        let mut rhs = rhs;
        let ghost r = rhs;
        if rhs.max_states > lhs.max_states {
            lhs.max_states = rhs.max_states;
        }
        lhs.pipes.append(&mut rhs.pipes);
        proof {
            assert(lhs.pipes@ =~= self.pipes@ + r.pipes@);
            lemma_fits_more(self, lhs, 0, self.pipes@.len());
            lemma_fits_more(r, lhs, self.pipes@.len(), r.pipes@.len());
            assert forall|i: int| 0 <= i < lhs.pipes@.len() implies node_fits(
                #[trigger] lhs.pipes@[i],
                lhs.max_states,
            ) by {
                if i >= self.pipes@.len() {
                    assert(lhs.pipes@[i] == lhs.pipes@[self.pipes@.len() + (i
                        - self.pipes@.len())]);
                } else {
                    assert(lhs.pipes@[i] == lhs.pipes@[0 + i]);
                }
            }
            lemma_fits_all(lhs, lhs.pipes@.len());
            assert forall|input: Seq<A>| #[trigger]
                lhs.output(input) == match self.output(input) {
                    Some(mid) => r.output(mid),
                    None => None,
                } by {
                lemma_run_concat(lhs, self, r, input, r.pipes@.len());
            }
        }
        lhs
    }

    /// The number of states of the largest transducer in the pipeline.
    pub fn max_states(&self) -> (r: usize)
        ensures
            r == self.max_states,
    {
        self.max_states
    }

    /// A scratchpad of the right size for this pipeline.
    pub fn make_state_to_index_table(&self) -> (r: StateToIndexTable)
        ensures
            r@.len() == self.max_states,
    {
        StateToIndexTable::new(self.max_states())
    }

    /// Makes the scratchpad large enough for this pipeline.
    pub fn ensure_length(&self, state_to_index: &mut StateToIndexTable)
        ensures
            final(state_to_index)@.len() >= self.max_states,
    {
        state_to_index.ensure_length(self.max_states())
    }

    /// What the first `upto` stages give for the input; see `run`.
    pub fn evaluate_stages(
        &self,
        state_to_index: &mut StateToIndexTable,
        input: Vec<A>,
        upto: usize,
    ) -> (r: Option<Vec<A>>)
        requires
            upto <= self.pipes@.len(),
            fits(*self, upto as nat),
            old(state_to_index)@.len() >= self.max_states,
        ensures
            final(state_to_index)@.len() == old(state_to_index)@.len(),
            match run(*self, input@, upto as nat) {
                Some(out) => r.is_some() && r.unwrap()@ == out,
                None => r.is_none(),
            },
        decreases self, upto,
    {
        if upto == 0 {
            return Some(input);
        }
        let mid = match self.evaluate_stages(state_to_index, input, upto - 1) {
            Some(mid) => mid,
            None => {
                return None;
            },
        };
        assert(fits(*self, (upto - 1) as nat) && node_fits(
            self.pipes@[upto - 1],
            self.max_states,
        ));
        let ghost node = self.pipes@[upto - 1];
        let ghost mid_view = mid@;
        match &self.pipes[upto - 1] {
            PipelineNode::Automaton(r, _) => {
                let out = r.evaluate_tabular(state_to_index, mid.as_slice());
                assert(run_node(node, mid_view) == evaluate(r@, mid_view));
                out
            },
            PipelineNode::External(f, _) => {
                let mut out: Vec<A> = Vec::new();
                assert(run_node(node, mid_view) == f.model(mid_view));
                if f.apply(&mid, &mut out) {
                    Some(out)
                } else {
                    None
                }
            },
            PipelineNode::Alternative(lhs, rhs) => {
                let copy = mid.clone();
                assert(copy@ =~= mid@);
                assert(run_node(node, mid_view) == match run(*lhs, mid_view, lhs.pipes@.len()) {
                    Some(out) => Some(out),
                    None => run(*rhs, mid_view, rhs.pipes@.len()),
                });
                match lhs.evaluate_stages(state_to_index, mid, lhs.pipes.len()) {
                    Some(out) => Some(out),
                    None => rhs.evaluate_stages(state_to_index, copy, rhs.pipes.len()),
                }
            },
        }
    }

    /// What the pipeline gives for the input; see `output`.
    pub fn evaluate_tabular(&self, state_to_index: &mut StateToIndexTable, input: &[A]) -> (r:
        Option<Vec<A>>)
        requires
            self.wf(),
            old(state_to_index)@.len() >= self.max_states,
        ensures
            final(state_to_index)@.len() == old(state_to_index)@.len(),
            match self.output(input@) {
                Some(out) => r.is_some() && r.unwrap()@ == out,
                None => r.is_none(),
            },
    {
        let input = vstd::slice::slice_to_vec(input);
        self.evaluate_stages(state_to_index, input, self.pipes.len())
    }

    /// As `evaluate_tabular`, on buffers that hold their symbols in the opposite
    /// order: the last symbol of the input stands first in `input_buffer`, and
    /// the last symbol of the output stands first in `output_buffer`. Says
    /// whether the input was accepted; where it was not, `output_buffer` is
    /// empty. The input buffer is left as it was.
    pub fn evaluate_with_buffer(
        &self,
        state_to_index: &mut StateToIndexTable,
        output_buffer: &mut Vec<A>,
        input_buffer: &mut Vec<A>,
    ) -> (r: bool)
        requires
            self.wf(),
            old(state_to_index)@.len() >= self.max_states,
        ensures
            final(state_to_index)@.len() == old(state_to_index)@.len(),
            r == self.output(old(input_buffer)@.reverse()).is_some(),
            r ==> final(output_buffer)@ == self.output(old(input_buffer)@.reverse()).unwrap().reverse(),
            !r ==> final(output_buffer)@.len() == 0,
            final(input_buffer)@ == old(input_buffer)@,
    {
        let input = reversed(input_buffer);
        output_buffer.clear();
        match self.evaluate_stages(state_to_index, input, self.pipes.len()) {
            Some(out) => {
                let mut back = reversed(&out);
                output_buffer.append(&mut back);
                assert(output_buffer@ =~= out@.reverse());
                true
            },
            None => false,
        }
    }

    /// What the pipeline gives for the characters of `input`, as a string of
    /// symbols. An output that holds a symbol that is no Unicode scalar value
    /// cannot be such a string, and nothing is returned for it.
    pub fn evaluate_to_int_seq(&self, input: &str) -> (r: Option<IntSeq>)
        requires
            self.wf(),
        ensures
            match self.output(symbols_of(input@)) {
                Some(out) => if all_scalars(out) {
                    r.is_some() && r.unwrap().symbols() == out
                } else {
                    r.is_none()
                },
                None => r.is_none(),
            },
    {
        let symbols = IntSeq::from(input).to_symbols();
        let mut state_to_index = self.make_state_to_index_table();
        match self.evaluate_tabular(&mut state_to_index, symbols.as_slice()) {
            Some(out) => IntSeq::from_symbols(out.as_slice()),
            None => None,
        }
    }

    /// As `evaluate_to_int_seq`, as a string.
    pub fn evaluate_to_string(&self, input: &str) -> (r: Option<String>)
        requires
            self.wf(),
        ensures
            match self.output(symbols_of(input@)) {
                Some(out) => if all_scalars(out) {
                    r.is_some() && symbols_of(r.unwrap()@) == out
                } else {
                    r.is_none()
                },
                None => r.is_none(),
            },
    {
        match self.evaluate_to_int_seq(input) {
            Some(out) => Some(out.as_str().to_owned()),
            None => None,
        }
    }
}


/// `Rc::clone` of std: another pointer to the value that the pointer leads
/// to.
#[verifier::external_body]
pub(crate) fn share(r: &Rc<RangedGraph>) -> (s: Rc<RangedGraph>)
    ensures
        s == *r,
{
    Rc::clone(r)
}

/// Whether two stages are the same stage: the same transducer, the same
/// function from outside, or two pipelines that are alike on either side.
pub open spec fn alike_node<X: ExternalStage>(a: PipelineNode<X>, b: PipelineNode<X>) -> bool
    decreases a, 0nat,
{
    match a {
        PipelineNode::Automaton(r, pos) => b == a,
        PipelineNode::External(f, pos) => b == a,
        PipelineNode::Alternative(l, r) => b matches PipelineNode::Alternative(bl, br) && alike(
            l,
            bl,
            l.pipes@.len(),
        ) && alike(r, br, r.pipes@.len()),
    }
}

/// Whether two pipelines have the same bound and as many stages, and their
/// first `n` stages are the same.
pub open spec fn alike<X: ExternalStage>(a: Pipeline<X>, b: Pipeline<X>, n: nat) -> bool
    decreases a, n,
{
    &&& a.max_states == b.max_states
    &&& a.pipes@.len() == b.pipes@.len()
    &&& (n == 0 || n > a.pipes@.len() || (alike(a, b, (n - 1) as nat) && alike_node(
        a.pipes@[n - 1],
        b.pipes@[n - 1],
    )))
}

/// Stages that are the same give the same and fit the same bounds.
pub proof fn lemma_alike_node<X: ExternalStage>(a: PipelineNode<X>, b: PipelineNode<X>)
    requires
        alike_node(a, b),
    ensures
        forall|input: Seq<A>| #[trigger] run_node(a, input) == run_node(b, input),
        forall|bound: usize| #[trigger] node_fits(a, bound) == node_fits(b, bound),
    decreases a, 0nat,
{
    match a {
        PipelineNode::Alternative(l, r) => {
            let bl = b->Alternative_0;
            let br = b->Alternative_1;
            lemma_alike(l, bl, l.pipes@.len());
            lemma_alike(r, br, r.pipes@.len());
            assert forall|input: Seq<A>| #[trigger]
                run_node(a, input) == run_node(b, input) by {
                assert(run(l, input, l.pipes@.len()) == run(bl, input, l.pipes@.len()));
                assert(run(r, input, r.pipes@.len()) == run(br, input, r.pipes@.len()));
            }
            assert forall|bound: usize| #[trigger]
                node_fits(a, bound) == node_fits(b, bound) by {
                assert(fits(l, l.pipes@.len()) == fits(bl, bl.pipes@.len()));
                assert(fits(r, r.pipes@.len()) == fits(br, br.pipes@.len()));
            }
        },
        _ => {},
    }
}

/// Pipelines that are alike give the same and fit alike.
pub proof fn lemma_alike<X: ExternalStage>(a: Pipeline<X>, b: Pipeline<X>, n: nat)
    requires
        alike(a, b, n),
    ensures
        forall|input: Seq<A>| #[trigger] run(a, input, n) == run(b, input, n),
        fits(a, n) == fits(b, n),
    decreases a, n,
{
    if n == 0 || n > a.pipes@.len() {
        assert forall|input: Seq<A>| #[trigger] run(a, input, n) == run(b, input, n) by {}
    } else {
        lemma_alike(a, b, (n - 1) as nat);
        lemma_alike_node(a.pipes@[n - 1], b.pipes@[n - 1]);
        assert forall|input: Seq<A>| #[trigger] run(a, input, n) == run(b, input, n) by {
            assert(run(a, input, (n - 1) as nat) == run(b, input, (n - 1) as nat));
            match run(a, input, (n - 1) as nat) {
                Some(mid) => {
                    assert(run_node(a.pipes@[n - 1], mid) == run_node(b.pipes@[n - 1], mid));
                },
                None => {},
            }
        }
        assert(node_fits(a.pipes@[n - 1], a.max_states) == node_fits(
            b.pipes@[n - 1],
            b.max_states,
        ));
    }
}

impl<X: ExternalStage + Copy> PipelineNode<X> {
    /// A copy of the stage, which shares its transducer with it.
    pub fn copy_node(&self) -> (r: Self)
        ensures
            alike_node(*self, r),
        decreases *self, 0nat,
    {
        match self {
            PipelineNode::Automaton(r, pos) => PipelineNode::Automaton(share(r), *pos),
            PipelineNode::External(f, pos) => PipelineNode::External(*f, *pos),
            PipelineNode::Alternative(l, r) => PipelineNode::Alternative(
                l.copy_pipeline(),
                r.copy_pipeline(),
            ),
        }
    }
}

impl<X: ExternalStage + Copy> Pipeline<X> {
    /// A copy of the pipeline, which shares its transducers with it: it gives
    /// what the pipeline gives.
    pub fn copy_pipeline(&self) -> (r: Self)
        ensures
            alike(*self, r, self.pipes@.len()),
            self.wf() ==> r.wf(),
            r.max_states == self.max_states,
            forall|input: Seq<A>| #[trigger] r.output(input) == self.output(input),
        decreases *self, 1nat,
    {
        let mut pipes: Vec<PipelineNode<X>> = Vec::with_capacity(self.pipes.len());
        let mut i: usize = 0;
        while i < self.pipes.len()
            invariant
                i <= self.pipes@.len(),
                pipes@.len() == i,
                forall|k: int| 0 <= k < i ==> alike_node(self.pipes@[k], #[trigger] pipes@[k]),
            decreases self.pipes@.len() - i,
        {
            let node = self.pipes[i].copy_node();
            pipes.push(node);
            i = i + 1;
        }
        let r = Pipeline { pipes, max_states: self.max_states };
        proof {
            lemma_alike_all(*self, r, self.pipes@.len());
            lemma_alike(*self, r, self.pipes@.len());
        }
        r
    }
}

/// Pipelines with the same bound whose stages are the same are alike.
pub proof fn lemma_alike_all<X: ExternalStage>(a: Pipeline<X>, b: Pipeline<X>, n: nat)
    requires
        a.max_states == b.max_states,
        a.pipes@.len() == b.pipes@.len(),
        n <= a.pipes@.len(),
        forall|k: int| 0 <= k < n ==> alike_node(a.pipes@[k], #[trigger] b.pipes@[k]),
    ensures
        alike(a, b, n),
    decreases n,
{
    if n > 0 {
        lemma_alike_all(a, b, (n - 1) as nat);
    }
}

} // verus!
