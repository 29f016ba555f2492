use crate::int_seq::{decrement, IntSeq, A, REFLECT};
use crate::p::{neutral_view, multiply_view, PView, PartialEdge, P, W};
use vstd::prelude::*;

verus! {

/// What a full edge is: the input interval `(from_exclusive, to_inclusive]` that
/// it accepts, and its partial edge.
pub struct EView {
    pub from_exclusive: A,
    pub to_inclusive: A,
    pub partial: PView,
}

/// Anything that accepts an interval of input symbols.
pub trait FullEdge {
    spec fn spec_from_exclusive(&self) -> A;

    spec fn spec_to_inclusive(&self) -> A;

    fn from_exclusive(&self) -> (r: A)
        ensures
            r == self.spec_from_exclusive(),
    ;

    fn to_inclusive(&self) -> (r: A)
        ensures
            r == self.spec_to_inclusive(),
    ;
}

/// A full edge. Its interval is never empty: `from_exclusive < to_inclusive`.
#[derive(Debug)]
pub struct E {
    from_exclusive: A,
    to_inclusive: A,
    partial: P,
}

impl View for E {
    type V = EView;

    closed spec fn view(&self) -> EView {
        EView {
            from_exclusive: self.from_exclusive,
            to_inclusive: self.to_inclusive,
            partial: self.partial@,
        }
    }
}

impl FullEdge for E {
    open spec fn spec_from_exclusive(&self) -> A {
        self@.from_exclusive
    }

    open spec fn spec_to_inclusive(&self) -> A {
        self@.to_inclusive
    }

    fn from_exclusive(&self) -> (r: A)
        ensures
            r < self@.to_inclusive,
    {
        proof {
            use_type_invariant(self);
        }
        self.from_exclusive
    }

    fn to_inclusive(&self) -> (r: A)
        ensures
            self@.from_exclusive < r,
    {
        proof {
            use_type_invariant(self);
        }
        self.to_inclusive
    }
}

impl PartialEdge for E {
    open spec fn partial_view(&self) -> PView {
        self@.partial
    }

    fn weight(&self) -> (r: W) {
        self.partial.weight()
    }

    fn output(&self) -> (r: &IntSeq) {
        self.partial.output()
    }

    fn destruct(self) -> (r: (W, IntSeq)) {
        let E { from_exclusive: _, to_inclusive: _, partial } = self;
        partial.destruct()
    }
}

impl Clone for E {
    fn clone(&self) -> (r: Self)
        ensures
            r@ == self@,
    {
        proof {
            use_type_invariant(self);
        }
        E {
            from_exclusive: self.from_exclusive,
            to_inclusive: self.to_inclusive,
            partial: self.partial.clone(),
        }
    }
}

impl E {
    #[verifier::type_invariant]
    spec fn well_formed(&self) -> bool {
        self.from_exclusive < self.to_inclusive
    }

    pub fn partial(&self) -> (r: &P)
        ensures
            r@ == self@.partial,
    {
        &self.partial
    }

    /// Replaces the partial edge and keeps the interval.
    pub fn set_partial(&mut self, partial: P)
        ensures
            final(self)@ == (EView { partial: partial@, ..old(self)@ }),
    {
        proof {
            use_type_invariant(&*self);
        }
        *self = E { from_exclusive: self.from_exclusive, to_inclusive: self.to_inclusive, partial };
    }

    pub fn new(from_exclusive: A, to_inclusive: A, partial: P) -> (r: Self)
        requires
            from_exclusive < to_inclusive,
        ensures
            r@ == (EView { from_exclusive, to_inclusive, partial: partial@ }),
    {
        E { from_exclusive, to_inclusive, partial }
    }

    /// The edge over `(from_exclusive, to_inclusive]` with the neutral partial edge.
    pub fn new_neutral(from_exclusive: A, to_inclusive: A) -> (r: Self)
        requires
            from_exclusive < to_inclusive,
        ensures
            r@ == (EView { from_exclusive, to_inclusive, partial: neutral_view() }),
    {
        E::new(from_exclusive, to_inclusive, P::neutral())
    }

    /// The edge that accepts exactly `symbol`, with the neutral partial edge.
    pub fn new_neutral_from_symbol(symbol: A) -> (r: Self)
        requires
            symbol > REFLECT,
        ensures
            r@ == (EView {
                from_exclusive: (symbol - 1) as A,
                to_inclusive: symbol,
                partial: neutral_view(),
            }),
    {
        E::new_neutral(decrement(symbol), symbol)
    }

    /// The edge that accepts exactly `symbol`, with the given partial edge.
    pub fn new_from_symbol(symbol: A, partial: P) -> (r: Self)
        requires
            symbol > REFLECT,
        ensures
            r@ == (EView {
                from_exclusive: (symbol - 1) as A,
                to_inclusive: symbol,
                partial: partial@,
            }),
    {
        E::new(decrement(symbol), symbol, partial)
    }

    /// The edge with `p` multiplied behind its partial edge.
    pub fn right_action(&self, p: &P) -> (r: E)
        ensures
            r@ == (EView { partial: multiply_view(self@.partial, p@), ..self@ }),
    {
        proof {
            use_type_invariant(self);
        }
        E::new(self.from_exclusive, self.to_inclusive, self.partial.multiply(p))
    }
}

} // verus!
