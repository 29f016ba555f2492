use crate::g::G;
use crate::int_seq::IntSeq;
use vstd::prelude::*;

verus! {

/// The arguments of a call of an external function.
pub type FuncArgs = Vec<FuncArg>;

/// A list of samples: each an input with its output, or an input alone.
pub type Informant = Vec<(IntSeq, Option<IntSeq>)>;

/// One argument of a call of an external function.
pub enum FuncArg {
    Informant(Informant),
    Expression(G),
}

impl FuncArg {
    pub fn new_informant(informant: Informant) -> (r: Self)
        ensures
            r == FuncArg::Informant(informant),
    {
        FuncArg::Informant(informant)
    }

    pub fn new_expression(g: G) -> (r: Self)
        ensures
            r == FuncArg::Expression(g),
    {
        FuncArg::Expression(g)
    }
}

} // verus!
