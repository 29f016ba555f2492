use vstd::prelude::*;

verus! {

/// Provenance of a node or of an error: where in the source text it comes from.
#[derive(Clone, Copy, Debug, PartialEq, Eq, Structural)]
#[allow(non_camel_case_types)]
pub enum V {
    /// No position is known.
    UNKNOWN,
    /// A byte offset into the source text.
    Position(usize),
}

} // verus!
