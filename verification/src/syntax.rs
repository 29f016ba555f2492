use crate::lexer::{Tok, Token};
use crate::p::W;
use vstd::prelude::*;

verus! {

/// One sample in the argument of a call: an input literal, alone or with
/// what it is mapped to: an output literal, or nothing for an input that is
/// to be rejected.
#[derive(Debug)]
pub struct Sample {
    pub input: String,
    pub output: Option<Option<String>>,
}

/// An expression of the source language, as it was written. The numbers are
/// the places of the tokens, for error messages and provenance.
#[derive(Debug)]
pub enum Expr {
    /// A string literal that is read.
    Input(usize, String),
    /// A colon and a string literal that is written.
    Output(usize, String),
    /// A bracket expression.
    Bracket(usize, String),
    /// A list of code points between angle brackets.
    Codepoints(usize, String),
    /// A list of code point intervals.
    CodepointRange(usize, String),
    /// The name of a transducer, behind `!!` where a copy is asked for.
    Variable(usize, String, bool),
    /// A call of an external function with samples as its argument.
    Call(usize, String, Vec<Sample>),
    /// An expression in parentheses.
    Group(Box<Expr>),
    /// A weight before a concatenation.
    Pre(W, Box<Expr>),
    /// A weight behind an expression.
    Post(Box<Expr>, W),
    /// `*`
    Star(usize, Box<Expr>),
    /// `+`
    Plus(usize, Box<Expr>),
    /// `?`
    Optional(usize, Box<Expr>),
    /// Two expressions one after the other.
    Concat(Box<Expr>, Box<Expr>),
    /// Two expressions with a bar between them.
    Union(usize, Box<Expr>, Box<Expr>),
}

/// A pipeline expression, as it was written.
#[derive(Debug)]
pub enum Pipe {
    /// A transducer expression, with the place where it begins.
    Automaton(usize, Expr),
    /// `@` and the name of a pipeline.
    Named(usize, String),
    /// `@(`, a pipeline expression and `)`.
    Group(Box<Pipe>),
    /// Two pipelines with a semicolon between them.
    Compose(Box<Pipe>, Box<Pipe>),
    /// Two pipelines with `||` between them.
    Alternative(Box<Pipe>, Box<Pipe>),
}

/// A statement of the source language, as it was written.
#[derive(Debug)]
pub enum Statement {
    /// A name, `=` and a transducer expression; `!!` before the name makes
    /// every use of it a copy. The word `nonfunc` before it says that the
    /// transducer need not be a function; it is kept as it was written, and
    /// changes nothing in what the statement does.
    Define { offset: usize, name: String, always_copy: bool, nonfunc: bool, body: Expr },
    /// `@`, a name, `=` and a pipeline expression.
    Chain { offset: usize, name: String, stages: Pipe },
}

/// The tokens without their places.
pub open spec fn toks(tokens: Seq<Token>) -> Seq<Tok> {
    tokens.map_values(|t: Token| t.tok)
}

/// The tokens by which one sample is written.
pub open spec fn spelled_sample(sample: Sample) -> Seq<Tok> {
    seq![Tok::Literal(sample.input)] + match sample.output {
        None => Seq::empty(),
        Some(None) => seq![Tok::Colon, Tok::Nothing],
        Some(Some(o)) => seq![Tok::Colon, Tok::Literal(o)],
    }
}

/// The tokens by which the first `n` samples are written, with commas
/// between them.
pub open spec fn spelled_samples(samples: Seq<Sample>, n: nat) -> Seq<Tok>
    decreases n,
{
    if n == 0 || n > samples.len() {
        Seq::empty()
    } else if n == 1 {
        spelled_sample(samples[0])
    } else {
        spelled_samples(samples, (n - 1) as nat) + seq![Tok::Comma] + spelled_sample(
            samples[n - 1],
        )
    }
}

/// The tokens by which the expression is written.
pub open spec fn spelled(e: Expr) -> Seq<Tok>
    decreases e,
{
    match e {
        Expr::Input(_, s) => seq![Tok::Literal(s)],
        Expr::Output(_, s) => seq![Tok::Colon, Tok::Literal(s)],
        Expr::Bracket(_, s) => seq![Tok::Bracket(s)],
        Expr::Codepoints(_, s) => seq![Tok::Codepoints(s)],
        Expr::CodepointRange(_, s) => seq![Tok::CodepointRange(s)],
        Expr::Variable(_, name, copy) => if copy {
            seq![Tok::Copy, Tok::Id(name)]
        } else {
            seq![Tok::Id(name)]
        },
        Expr::Call(_, name, samples) => seq![Tok::Id(name), Tok::Call] + spelled_samples(
            samples@,
            samples@.len(),
        ) + seq![Tok::Close],
        Expr::Group(inner) => seq![Tok::Open] + spelled(*inner) + seq![Tok::Close],
        Expr::Pre(w, inner) => seq![Tok::Number(w)] + spelled(*inner),
        Expr::Post(inner, w) => spelled(*inner) + seq![Tok::Number(w)],
        Expr::Star(_, inner) => spelled(*inner) + seq![Tok::Star],
        Expr::Plus(_, inner) => spelled(*inner) + seq![Tok::Plus],
        Expr::Optional(_, inner) => spelled(*inner) + seq![Tok::Question],
        Expr::Concat(l, r) => spelled(*l) + spelled(*r),
        Expr::Union(_, l, r) => spelled(*l) + seq![Tok::Bar] + spelled(*r),
    }
}

/// The tokens by which the pipeline expression is written.
pub open spec fn spelled_pipe(p: Pipe) -> Seq<Tok>
    decreases p,
{
    match p {
        Pipe::Automaton(_, e) => spelled(e),
        Pipe::Named(_, name) => seq![Tok::At, Tok::Id(name)],
        Pipe::Group(inner) => seq![Tok::At, Tok::Open] + spelled_pipe(*inner) + seq![Tok::Close],
        Pipe::Compose(l, r) => spelled_pipe(*l) + seq![Tok::Semicolon] + spelled_pipe(*r),
        Pipe::Alternative(l, r) => spelled_pipe(*l) + seq![Tok::Alternative] + spelled_pipe(*r),
    }
}

/// The tokens by which the statement is written.
pub open spec fn spelled_statement(s: Statement) -> Seq<Tok> {
    match s {
        Statement::Define { offset, name, always_copy, nonfunc, body } => (if nonfunc {
            seq![Tok::Nonfunc]
        } else {
            Seq::empty()
        }) + (if always_copy {
            seq![Tok::Copy]
        } else {
            Seq::empty()
        }) + seq![Tok::Id(name), Tok::Assign] + spelled(body),
        Statement::Chain { offset, name, stages } => seq![Tok::At, Tok::Id(name), Tok::Assign]
            + spelled_pipe(stages),
    }
}

/// The tokens by which the first `n` statements are written.
pub open spec fn spelled_program(statements: Seq<Statement>, n: nat) -> Seq<Tok>
    decreases n,
{
    if n == 0 || n > statements.len() {
        Seq::empty()
    } else {
        spelled_program(statements, (n - 1) as nat) + spelled_statement(statements[n - 1])
    }
}


/// How loosely the outermost sign of an expression binds: 0 for what cannot
/// be taken apart without opening it, 1 for a weight behind, 2 for a
/// closure, 3 for a concatenation, 4 for a weight before, 5 for a union.
pub open spec fn rank(e: Expr) -> nat {
    match e {
        Expr::Post(_, _) => 1,
        Expr::Star(_, _) => 2,
        Expr::Plus(_, _) => 2,
        Expr::Optional(_, _) => 2,
        Expr::Concat(_, _) => 3,
        Expr::Pre(_, _) => 4,
        Expr::Union(_, _, _) => 5,
        _ => 0,
    }
}

/// Whether the expression is built as the source language binds: a weight
/// behind stands behind what cannot be taken apart, a closure behind that or
/// behind a weight behind; a concatenation grows to the left, and its right
/// side is a closure at most; a weight before stands before a concatenation
/// at most; a union grows to the left, and its right side is a weight before
/// at most. What is more loosely bound stands in parentheses.
pub open spec fn shaped(e: Expr) -> bool
    decreases e,
{
    match e {
        Expr::Group(inner) => shaped(*inner),
        Expr::Post(inner, _) => rank(*inner) == 0 && shaped(*inner),
        Expr::Star(_, inner) => rank(*inner) <= 1 && shaped(*inner),
        Expr::Plus(_, inner) => rank(*inner) <= 1 && shaped(*inner),
        Expr::Optional(_, inner) => rank(*inner) <= 1 && shaped(*inner),
        Expr::Concat(l, r) => rank(*l) <= 3 && rank(*r) <= 2 && shaped(*l) && shaped(*r),
        Expr::Pre(_, inner) => rank(*inner) <= 3 && shaped(*inner),
        Expr::Union(_, l, r) => rank(*l) <= 5 && rank(*r) <= 4 && shaped(*l) && shaped(*r),
        _ => true,
    }
}

/// How loosely the outermost sign of a pipeline expression binds: 0 for a
/// stage, 1 for a composition, 2 for an alternative.
pub open spec fn pipe_rank(p: Pipe) -> nat {
    match p {
        Pipe::Compose(_, _) => 1,
        Pipe::Alternative(_, _) => 2,
        _ => 0,
    }
}

/// Whether the pipeline expression is built as the source language binds:
/// a composition grows to the left, and its right side is a stage; an
/// alternative grows to the left, and its right side is a composition at
/// most; and the transducer expressions in it are built as the language
/// binds.
pub open spec fn pipe_shaped(p: Pipe) -> bool
    decreases p,
{
    match p {
        Pipe::Automaton(_, e) => shaped(e),
        Pipe::Named(_, _) => true,
        Pipe::Group(inner) => pipe_shaped(*inner),
        Pipe::Compose(l, r) => pipe_rank(*l) <= 1 && pipe_rank(*r) == 0 && pipe_shaped(*l)
            && pipe_shaped(*r),
        Pipe::Alternative(l, r) => pipe_rank(*l) <= 2 && pipe_rank(*r) <= 1 && pipe_shaped(*l)
            && pipe_shaped(*r),
    }
}

/// Whether the expression of the statement is built as the source language
/// binds.
pub open spec fn statement_shaped(s: Statement) -> bool {
    match s {
        Statement::Define { offset, name, always_copy, nonfunc, body } => shaped(body),
        Statement::Chain { offset, name, stages } => pipe_shaped(stages),
    }
}

} // verus!
