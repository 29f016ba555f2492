use crate::compilation_error::CompErr;
use crate::compiler::{lemma_chars_of_symbols, run_source, source_run, Dataset};
use crate::g::G;
use crate::int_seq::{symbols_of, unescape_symbols, IntSeq};
use crate::grammar::statements_from;
use crate::lexer::{tokens_from, TokView};
use crate::parser::{parse, written};
use crate::parser_state::{pipeline_at, variable_at, ParserState};
use crate::parser_utils::chars_of_symbols;
use crate::pipeline::{ExternalStage, Pipeline};
use crate::repl_command::strings_view;
use crate::syntax::{spelled_program, Expr, Pipe, Sample, Statement};
use crate::v::V;
use vstd::prelude::*;

verus! {

/// The path of the dataset that a call names, if it is a call of the
/// function that learns from a dataset with one sample for its argument:
/// the string that the input of the sample stands for.
pub open spec fn named_dataset(name: Seq<char>, samples: Seq<Sample>) -> Option<Seq<char>> {
    if name == "activeLearningFromDataset"@ && samples.len() == 1 {
        match unescape_symbols(symbols_of(samples[0].input@)) {
            Some(t) => Some(chars_of_symbols(t)),
            None => None,
        }
    } else {
        None
    }
}

/// The paths of the datasets that the expression names, from left to right.
pub open spec fn wanted(e: Expr) -> Seq<Seq<char>>
    decreases e,
{
    match e {
        Expr::Call(_, name, samples) => match named_dataset(name@, samples@) {
            Some(path) => seq![path],
            None => Seq::empty(),
        },
        Expr::Group(inner) => wanted(*inner),
        Expr::Pre(_, inner) => wanted(*inner),
        Expr::Post(inner, _) => wanted(*inner),
        Expr::Star(_, inner) => wanted(*inner),
        Expr::Plus(_, inner) => wanted(*inner),
        Expr::Optional(_, inner) => wanted(*inner),
        Expr::Concat(l, r) => wanted(*l) + wanted(*r),
        Expr::Union(_, l, r) => wanted(*l) + wanted(*r),
        _ => Seq::empty(),
    }
}

/// The paths of the datasets that the pipeline expression names.
pub open spec fn wanted_by_pipe(p: Pipe) -> Seq<Seq<char>>
    decreases p,
{
    match p {
        Pipe::Automaton(_, e) => wanted(e),
        Pipe::Named(_, _) => Seq::empty(),
        Pipe::Group(inner) => wanted_by_pipe(*inner),
        Pipe::Compose(l, r) => wanted_by_pipe(*l) + wanted_by_pipe(*r),
        Pipe::Alternative(l, r) => wanted_by_pipe(*l) + wanted_by_pipe(*r),
    }
}

/// The paths of the datasets that the statement names.
pub open spec fn wanted_by_statement(s: Statement) -> Seq<Seq<char>> {
    match s {
        Statement::Define { offset, name, always_copy, nonfunc, body } => wanted(body),
        Statement::Chain { offset, name, stages } => wanted_by_pipe(stages),
    }
}

/// The paths of the datasets that the first `n` statements name.
pub open spec fn wanted_by_program(statements: Seq<Statement>, n: nat) -> Seq<Seq<char>>
    decreases n,
{
    if n == 0 || n > statements.len() {
        Seq::empty()
    } else {
        wanted_by_program(statements, (n - 1) as nat) + wanted_by_statement(statements[n - 1])
    }
}

/// Adds the paths of the datasets that the expression names to `out`.
pub fn requests_of(e: &Expr, out: &mut Vec<String>)
    ensures
        strings_view(final(out)@) == strings_view(old(out)@) + wanted(*e),
    decreases *e,
{
    let ghost before = strings_view(out@);
    match e {
        Expr::Call(_, name, samples) => {
            if name.eq(&"activeLearningFromDataset".to_owned()) && samples.len() == 1 {
                match IntSeq::from_literal(V::UNKNOWN, samples[0].input.as_str()) {
                    Ok(path) => {
                        proof {
                            lemma_chars_of_symbols(path@);
                        }
                        out.push(path.as_str().to_owned());
                        assert(strings_view(out@) =~= before + wanted(*e));
                    },
                    Err(_) => {
                        assert(strings_view(out@) =~= before + wanted(*e));
                    },
                }
            } else {
                assert(strings_view(out@) =~= before + wanted(*e));
            }
        },
        Expr::Group(inner) => requests_of(inner, out),
        Expr::Pre(_, inner) => requests_of(inner, out),
        Expr::Post(inner, _) => requests_of(inner, out),
        Expr::Star(_, inner) => requests_of(inner, out),
        Expr::Plus(_, inner) => requests_of(inner, out),
        Expr::Optional(_, inner) => requests_of(inner, out),
        Expr::Concat(l, r) => {
            requests_of(l, out);
            requests_of(r, out);
            assert(strings_view(out@) =~= before + wanted(*e));
        },
        Expr::Union(_, l, r) => {
            requests_of(l, out);
            requests_of(r, out);
            assert(strings_view(out@) =~= before + wanted(*e));
        },
        _ => {
            assert(strings_view(out@) =~= before + wanted(*e));
        },
    }
}

/// Adds the paths of the datasets that the pipeline expression names to
/// `out`.
pub fn requests_of_pipe(p: &Pipe, out: &mut Vec<String>)
    ensures
        strings_view(final(out)@) == strings_view(old(out)@) + wanted_by_pipe(*p),
    decreases *p,
{
    let ghost before = strings_view(out@);
    match p {
        Pipe::Automaton(_, e) => requests_of(e, out),
        Pipe::Named(_, _) => {
            assert(strings_view(out@) =~= before + wanted_by_pipe(*p));
        },
        Pipe::Group(inner) => requests_of_pipe(inner, out),
        Pipe::Compose(l, r) => {
            requests_of_pipe(l, out);
            requests_of_pipe(r, out);
            assert(strings_view(out@) =~= before + wanted_by_pipe(*p));
        },
        Pipe::Alternative(l, r) => {
            requests_of_pipe(l, out);
            requests_of_pipe(r, out);
            assert(strings_view(out@) =~= before + wanted_by_pipe(*p));
        },
    }
}

/// The paths of the datasets that the statements name, in the order in
/// which they are named. The lines of these datasets must be at hand when
/// the statements are carried out.
pub fn dataset_requests(statements: &Vec<Statement>) -> (r: Vec<String>)
    ensures
        strings_view(r@) == wanted_by_program(statements@, statements@.len()),
{
    let mut out: Vec<String> = Vec::new();
    let mut i: usize = 0;
    assert(strings_view(out@) =~= wanted_by_program(statements@, 0));
    while i < statements.len()
        invariant
            i <= statements.len(),
            strings_view(out@) == wanted_by_program(statements@, i as nat),
        decreases statements.len() - i,
    {
        match &statements[i] {
            Statement::Define { offset, name, always_copy, nonfunc, body } => requests_of(
                body,
                &mut out,
            ),
            Statement::Chain { offset, name, stages } => requests_of_pipe(stages, &mut out),
        }
        i = i + 1;
    }
    out
}

/// A compiler of the source language: the names that are bound so far, and
/// the datasets that were read for it.
pub struct Solomonoff<X: ExternalStage> {
    pub state: ParserState<X>,
    pub datasets: Vec<Dataset>,
}

impl<X: ExternalStage + Copy> Solomonoff<X> {
    /// The compiler without names and without datasets, which knows the
    /// external functions of the library.
    pub fn new() -> (r: Self)
        ensures
            r.state.wf(),
            r.state.variables@.len() == 0,
            r.state.pipelines@.len() == 0,
            r.state.external_functions@.len() == 2,
            r.state.external_functions@[0]@ == "ostiaCompress"@,
            r.state.external_functions@[1]@ == "activeLearningFromDataset"@,
            r.datasets@.len() == 0,
    {
        Solomonoff { state: ParserState::new_with_standard_library(), datasets: Vec::new() }
    }

    pub fn state(&self) -> (r: &ParserState<X>)
        ensures
            *r == self.state,
    {
        &self.state
    }

    pub fn state_mut(&mut self) -> (r: &mut ParserState<X>)
        ensures
            *r == old(self).state,
            final(self).state == *final(r),
            final(self).datasets == old(self).datasets,
    {
        &mut self.state
    }

    /// Hands the lines of a dataset to the compiler, under the path by which
    /// source texts name it.
    pub fn provide_dataset(&mut self, path: String, lines: Vec<String>)
        ensures
            final(self).state == old(self).state,
            final(self).datasets@ == old(self).datasets@.push(Dataset { path, lines }),
    {
        self.datasets.push(Dataset { path, lines });
    }

    /// The paths of the datasets that the statements of the source text
    /// name, if it can be read; see `parse` and `wanted_by_program`.
    pub fn requests(source: &str) -> (r: Result<Vec<String>, CompErr>)
        ensures
            r matches Err(e) ==> e is Parse,
            match tokens_from(symbols_of(source@), 0) {
                Err(at) => r matches Err(CompErr::Parse(p, _)) && p == V::Position(at as usize),
                Ok(v) => (r is Ok <==> statements_from(
                    v.map_values(|x: (TokView, usize)| x.0),
                    0,
                )) && (r matches Ok(paths) ==> exists|statements: Seq<Statement>|
                    written(spelled_program(statements, statements.len())) == v.map_values(
                        |x: (TokView, usize)| x.0,
                    ) && strings_view(paths@) == #[trigger] wanted_by_program(
                        statements,
                        statements.len(),
                    )),
            },
    {
        match parse(source) {
            Ok(statements) => Ok(dataset_requests(&statements)),
            Err(e) => Err(e),
        }
    }

    /// Reads the source text and carries out its statements in turn, up to
    /// the first that fails; see `source_run`. A text that cannot be read
    /// changes nothing.
    pub fn parse(&mut self, source: &str) -> (r: Result<(), CompErr>)
        requires
            old(self).state.wf(),
        ensures
            final(self).state.wf(),
            final(self).datasets == old(self).datasets,
            final(self).state.external_functions == old(self).state.external_functions,
            source_run(source@, old(self).datasets@, old(self).state, final(self).state, r),
    {
        run_source(source, &mut self.state, &self.datasets)
    }

    /// The transducer that is bound to the name.
    pub fn get_transducer(&self, name: &String) -> (r: Option<&G>)
        ensures
            match variable_at(self.state.variables@, name@) {
                Some(i) => r.is_some() && 0 <= i < self.state.variables@.len() && *r.unwrap()
                    == self.state.variables@[i].g,
                None => r.is_none(),
            },
            self.state.wf() && r.is_some() ==> r.unwrap()@.wf() && r.unwrap()@.nodes.len()
                < usize::MAX,
    {
        match self.state.borrow_variable(name) {
            Some((_, _, g)) => Some(g),
            None => None,
        }
    }

    /// The pipeline that is bound to the name.
    pub fn get_pipeline(&self, name: &String) -> (r: Option<&Pipeline<X>>)
        ensures
            match pipeline_at(self.state.pipelines@, name@) {
                Some(i) => r.is_some() && 0 <= i < self.state.pipelines@.len() && *r.unwrap()
                    == self.state.pipelines@[i].pipeline,
                None => r.is_none(),
            },
            self.state.wf() && r.is_some() ==> r.unwrap().wf(),
    {
        self.state.borrow_pipeline(name)
    }

    /// Frees every name of a transducer.
    pub fn delete_all(&mut self)
        ensures
            final(self).state.variables@.len() == 0,
            final(self).state.pipelines == old(self).state.pipelines,
            final(self).datasets == old(self).datasets,
    {
        self.state.delete_all()
    }
}

} // verus!
