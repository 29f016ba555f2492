use crate::e::{FullEdge, E};
use crate::int_seq::IntSeq;
use vstd::prelude::*;

verus! {

/// A weight: path weights are sums, and evaluation prefers the greater one.
pub type W = i32;

/// What a partial edge is: a weight and the characters of its output.
pub struct PView {
    pub weight: W,
    pub output: Seq<char>,
}

/// The neutral element of the multiplication of partial edges.
pub open spec fn neutral_view() -> PView {
    PView { weight: 0, output: Seq::empty() }
}

/// The product of two partial edges: the weights are added, wrapping around at
/// the ends of the weight range, and the outputs are concatenated.
pub open spec fn multiply_view(lhs: PView, rhs: PView) -> PView {
    PView { weight: lhs.weight.wrapping_add(rhs.weight), output: lhs.output + rhs.output }
}

/// Anything that carries a weight and an output.
pub trait PartialEdge: Sized {
    spec fn partial_view(&self) -> PView;

    fn weight(&self) -> (r: W)
        ensures
            r == self.partial_view().weight,
    ;

    fn output(&self) -> (r: &IntSeq)
        ensures
            r@ == self.partial_view().output,
    ;

    fn destruct(self) -> (r: (W, IntSeq))
        ensures
            r.0 == self.partial_view().weight,
            r.1@ == self.partial_view().output,
    ;
}

/// Whether the edge has weight 0 and an empty output.
pub fn is_neutral<T: PartialEdge>(p: &T) -> (r: bool)
    ensures
        r == (p.partial_view() == neutral_view()),
{
    let r = p.weight() == 0 && p.output().is_empty();
    proof {
        if r {
            assert(p.partial_view().output =~= Seq::<char>::empty());
        }
    }
    r
}

/// A partial edge: a weighted output fragment.
#[derive(Debug)]
pub struct P {
    weight: W,
    output: IntSeq,
}

impl View for P {
    type V = PView;

    closed spec fn view(&self) -> PView {
        PView { weight: self.weight, output: self.output@ }
    }
}

impl PartialEdge for P {
    open spec fn partial_view(&self) -> PView {
        self@
    }

    fn weight(&self) -> (r: W) {
        self.weight
    }

    fn output(&self) -> (r: &IntSeq) {
        &self.output
    }

    fn destruct(self) -> (r: (W, IntSeq)) {
        let P { weight, output } = self;
        (weight, output)
    }
}

impl Clone for P {
    fn clone(&self) -> (r: Self)
        ensures
            r@ == self@,
    {
        P { weight: self.weight, output: self.output.clone() }
    }
}

impl P {
    /// The edge of weight 0 and empty output.
    pub fn neutral() -> (r: P)
        ensures
            r@ == neutral_view(),
    {
        P { weight: 0, output: IntSeq::epsilon() }
    }

    pub fn new(weight: W, output: IntSeq) -> (r: P)
        ensures
            r@ == (PView { weight, output: output@ }),
    {
        P { weight, output }
    }

    /// The product `self · rhs`.
    pub fn multiply(&self, rhs: &P) -> (r: P)
        ensures
            r@ == multiply_view(self@, rhs@),
    {
        P { weight: self.weight.wrapping_add(rhs.weight), output: self.output.concat(&rhs.output) }
    }

    /// Replaces `self` by the product `self · rhs`.
    pub fn multiply_in_place(&mut self, rhs: &P)
        ensures
            final(self)@ == multiply_view(old(self)@, rhs@),
    {
        self.weight = self.weight.wrapping_add(rhs.weight);
        self.output.extend(&rhs.output);
    }

    /// The edge `e` with `self` multiplied in front of its partial edge.
    pub fn left_action(&self, e: &E) -> (r: E)
        ensures
            r@.from_exclusive == e@.from_exclusive,
            r@.to_inclusive == e@.to_inclusive,
            r@.partial == multiply_view(self@, e@.partial),
    {
        E::new(e.from_exclusive(), e.to_inclusive(), self.multiply(e.partial()))
    }
}

/// Multiplication of partial edges is associative.
pub proof fn lemma_multiply_associative(a: PView, b: PView, c: PView)
    ensures
        multiply_view(multiply_view(a, b), c) == multiply_view(a, multiply_view(b, c)),
{
    assert((a.output + b.output) + c.output =~= a.output + (b.output + c.output));
    let x = a.weight;
    let y = b.weight;
    let z = c.weight;
    assert(x.wrapping_add(y).wrapping_add(z) == x.wrapping_add(y.wrapping_add(z))) by {
        lemma_wrapping_add_associative(x, y, z);
    }
}

/// Wrapping addition is associative.
pub proof fn lemma_wrapping_add_associative(x: i32, y: i32, z: i32)
    ensures
        x.wrapping_add(y).wrapping_add(z) == x.wrapping_add(y.wrapping_add(z)),
{
}

/// The neutral element is neutral on both sides.
pub proof fn lemma_multiply_neutral(a: PView)
    ensures
        multiply_view(a, neutral_view()) == a,
        multiply_view(neutral_view(), a) == a,
{
    assert(a.output + Seq::<char>::empty() =~= a.output);
    assert(Seq::<char>::empty() + a.output =~= a.output);
}

} // verus!
