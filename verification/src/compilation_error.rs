use crate::int_seq::A;
use crate::p::P;
use crate::v::V;
use vstd::prelude::*;

verus! {

/// What can go wrong while a transducer is compiled or a command is run.
#[derive(Debug, Clone)]
pub enum CompErr {
    /// A function name is bound twice: first definition, second definition, name.
    DuplicateFunction(V, V, String),
    /// A pipeline name is bound twice: first definition, second definition, name.
    DuplicatePipeline(V, V, String),
    UndefinedFunction(V, String),
    UndefinedPipeline(V, String),
    /// A submatch group is used twice: position, group index.
    DuplicateSubmatch(V, A),
    SubmatchGroupOutOfBounds(V, A),
    NonexistentTransducer(String),
    /// Source text or a literal could not be read: position, message.
    Parse(V, String),
    /// Stages that do not fit: position, expected, actual.
    PipelineSizeMismatch(V, usize, usize),
    /// Function position, type position, name.
    Typecheck(V, V, String),
    Nondeterminism(V, V, String),
    /// A Kleene closure or a union over an epsilon that leaves the output
    /// undetermined: position, the epsilon in question.
    KleeneNondeterminism(V, P),
    WeightConflictingToThirdState(V),
    WeightConflictingFinal(V),
    UndefinedExternalFunc(V, String),
    IllegalInformantIdOutput(V, String),
    NonEmptyInformantRangeOutput(V),
    IncorrectFunctionArguments(V, String),
    IncorrectCommandArguments(String),
    UnrecognisedCommand(String),
    /// Position, input, first output, second output.
    AmbiguousDictionary(V, Vec<u32>, Vec<u32>, Vec<u32>),
}

} // verus!
