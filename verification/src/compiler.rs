use crate::compilation_error::CompErr;
use crate::func_arg::{FuncArg, FuncArgs, Informant};
use crate::g::{chain_graph, epsilon_graph, literal_symbols, one_node_graph, range_edges, GView, G};
use crate::int_seq::{symbols_of, unescape_symbols, IntSeq, A, REFLECT};
use crate::external_functions::{learning, learnt};
use crate::learn::lazy_dataset::{ostia_compress_file, read_from};
use crate::learn::ostia_compress::Inferred;
use crate::solomonoff::named_dataset;
use crate::p::{multiply_view, neutral_view, PView, W};
use crate::parser_state::{
    binding_at, bindings, known, lemma_binding_at, lemma_variable_at, pipeline_at, variable_at,
    Binding, ExternalAction, NamedPipeline, ParserState, Variable,
};
use crate::parser_utils::{
    bracket_intervals, chars_of_symbols, codepoints_of_words, intervals_of_words, parse_codepoint_range,
    parse_codepoints, parse_literal, parse_range, post_w, pre_w, symbols_of_str, words,
};
use crate::pipeline::{ExternalStage, Pipeline};
use crate::ranged_evaluation::evaluate;
use crate::ranged_graph::RGView;
use crate::ranged_optimisation::is_ranged_of;
use crate::regular_operations::{
    concat_graph, epsilon_union_view, left_act_edges, loop_graph, right_act_finals, union_graph,
};
use crate::grammar::statements_from;
use crate::lexer::{tokens_from, TokView};
use crate::parser::{parse, written};
use crate::syntax::{spelled_program, Expr, Pipe, Sample, Statement};
use crate::v::V;
use vstd::prelude::*;

verus! {

/// The lines of a dataset that was read, under the path by which the source
/// text names it.
#[derive(Debug)]
pub struct Dataset {
    pub path: String,
    pub lines: Vec<String>,
}

/// The graph with a weight in front of it: the weight is added to the weight
/// of every incoming edge and of the epsilon. The weight 0 changes nothing.
pub open spec fn weight_before(w: W, g: GView) -> GView {
    if w == 0 {
        g
    } else {
        GView {
            incoming: left_act_edges(PView { weight: w, output: Seq::empty() }, g.incoming),
            epsilon: match g.epsilon {
                Some(eps) => Some(multiply_view(PView { weight: w, output: Seq::empty() }, eps)),
                None => None,
            },
            ..g
        }
    }
}

/// The graph with a weight behind it: the weight is added to the weight of
/// every final partial edge and of the epsilon. The weight 0 changes nothing.
pub open spec fn weight_behind(g: GView, w: W) -> GView {
    if w == 0 {
        g
    } else {
        GView {
            outgoing: right_act_finals(g.outgoing, PView { weight: w, output: Seq::empty() }),
            epsilon: match g.epsilon {
                Some(eps) => Some(multiply_view(eps, PView { weight: w, output: Seq::empty() })),
                None => None,
            },
            ..g
        }
    }
}

/// Whether none of the symbols is the reflection marker.
pub open spec fn plain(x: Seq<A>) -> bool {
    forall|i: int| 0 <= i < x.len() ==> #[trigger] x[i] > REFLECT
}

pub fn is_plain(x: &[A]) -> (r: bool)
    ensures
        r == plain(x@),
{
    let mut i: usize = 0;
    while i < x.len()
        invariant
            i <= x.len(),
            forall|k: int| 0 <= k < i ==> #[trigger] x@[k] > REFLECT,
        decreases x.len() - i,
    {
        if x[i] == REFLECT {
            return false;
        }
        i = i + 1;
    }
    true
}

/// Whether the expression holds a call of an external function.
pub open spec fn has_call(e: Expr) -> bool
    decreases e,
{
    match e {
        Expr::Call(_, _, _) => true,
        Expr::Group(inner) => has_call(*inner),
        Expr::Pre(_, inner) => has_call(*inner),
        Expr::Post(inner, _) => has_call(*inner),
        Expr::Star(_, inner) => has_call(*inner),
        Expr::Plus(_, inner) => has_call(*inner),
        Expr::Optional(_, inner) => has_call(*inner),
        Expr::Concat(l, r) => has_call(*l) || has_call(*r),
        Expr::Union(_, l, r) => has_call(*l) || has_call(*r),
        _ => false,
    }
}

/// What an expression without calls means where the given transducers are
/// bound to names: the graph that it stands for, or nothing if it stands for
/// none, and the transducers that are still bound afterwards. The parts of an
/// expression are taken from left to right, and nothing behind the first
/// part that stands for no graph is looked at.
///
/// A string literal reads its symbols one after the other, an output gives
/// its symbols for the empty input, and a set of symbols reads one of them.
/// A name stands for the transducer that is bound to it, which is then
/// bound no longer, unless a copy was asked for here or where it was bound.
/// A weight before or behind an expression is added to the weights with
/// which the graph is entered or left. Two expressions one after the other
/// are concatenated, two with a bar between them are united, and the signs
/// `*`, `+` and `?` stand for the closures of Kleene, of which there is none
/// for a graph whose epsilon is the neutral one.
pub open spec fn meaning(e: Expr, vars: Seq<Binding>) -> (Option<GView>, Seq<Binding>)
    decreases e,
{
    match e {
        Expr::Input(at, s) => {
            let x = literal_symbols(symbols_of(s@));
            if plain(x) {
                (Some(chain_graph(x, false, V::Position(at))), vars)
            } else {
                (None, vars)
            }
        },
        Expr::Output(at, s) => match unescape_symbols(symbols_of(s@)) {
            Some(t) => (
                Some(epsilon_graph(PView { weight: 0, output: chars_of_symbols(t) })),
                vars,
            ),
            None => (None, vars),
        },
        Expr::Bracket(at, s) => match bracket_intervals(symbols_of(s@), 0) {
            Ok(v) => (
                Some(one_node_graph(range_edges(v, 0), neutral_view(), V::Position(at))),
                vars,
            ),
            Err(_) => (None, vars),
        },
        Expr::Codepoints(at, s) => match codepoints_of_words(words(symbols_of(s@))) {
            Ok(v) => if plain(v) {
                (Some(chain_graph(v, false, V::Position(at))), vars)
            } else {
                (None, vars)
            },
            Err(_) => (None, vars),
        },
        Expr::CodepointRange(at, s) => match intervals_of_words(words(symbols_of(s@))) {
            Ok(v) => (
                Some(one_node_graph(range_edges(v, 0), neutral_view(), V::Position(at))),
                vars,
            ),
            Err(_) => (None, vars),
        },
        Expr::Variable(at, name, copy) => match binding_at(vars, name@) {
            Some(i) => (
                Some(vars[i].g),
                if copy || vars[i].always_copy {
                    vars
                } else {
                    vars.remove(i)
                },
            ),
            None => (None, vars),
        },
        Expr::Call(_, _, _) => (None, vars),
        Expr::Group(inner) => meaning(*inner, vars),
        Expr::Pre(w, inner) => match meaning(*inner, vars) {
            (Some(g), rest) => (Some(weight_before(w, g)), rest),
            (None, rest) => (None, rest),
        },
        Expr::Post(inner, w) => match meaning(*inner, vars) {
            (Some(g), rest) => (Some(weight_behind(g, w)), rest),
            (None, rest) => (None, rest),
        },
        Expr::Star(_, inner) => match meaning(*inner, vars) {
            (Some(g), rest) => if g.epsilon == Some(neutral_view()) {
                (None, rest)
            } else {
                (Some(GView { epsilon: Some(neutral_view()), ..loop_graph(g) }), rest)
            },
            (None, rest) => (None, rest),
        },
        Expr::Plus(_, inner) => match meaning(*inner, vars) {
            (Some(g), rest) => if g.epsilon == Some(neutral_view()) {
                (None, rest)
            } else {
                (Some(loop_graph(g)), rest)
            },
            (None, rest) => (None, rest),
        },
        Expr::Optional(_, inner) => match meaning(*inner, vars) {
            (Some(g), rest) => if g.epsilon == Some(neutral_view()) {
                (None, rest)
            } else {
                (Some(GView { epsilon: Some(neutral_view()), ..g }), rest)
            },
            (None, rest) => (None, rest),
        },
        Expr::Concat(l, r) => match meaning(*l, vars) {
            (Some(a), mid) => match meaning(*r, mid) {
                (Some(b), rest) => (Some(concat_graph(a, b)), rest),
                (None, rest) => (None, rest),
            },
            (None, rest) => (None, rest),
        },
        Expr::Union(_, l, r) => match meaning(*l, vars) {
            (Some(a), mid) => match meaning(*r, mid) {
                (Some(b), rest) => match epsilon_union_view(a.epsilon, b.epsilon) {
                    Ok(eps) => (Some(union_graph(a, b, eps)), rest),
                    Err(_) => (None, rest),
                },
                (None, rest) => (None, rest),
            },
            (None, rest) => (None, rest),
        },
    }
}


/// The characters that stand for symbols stand for these symbols.
pub proof fn lemma_chars_of_symbols(x: Seq<char>)
    ensures
        chars_of_symbols(symbols_of(x)) == x,
{
    assert forall|i: int| 0 <= i < x.len() implies chars_of_symbols(symbols_of(x))[i] == x[i] by {
        vstd::utf8::char_u32_cast(x[i], symbols_of(x)[i]);
    }
    assert(chars_of_symbols(symbols_of(x)) =~= x);
}

/// Whether the samples of a list are those that the samples of a source
/// text stand for: each literal is replaced by the string that it stands
/// for. A sample without output and a sample whose output is the empty set
/// both have no output.
pub open spec fn samples_informant(
    samples: Seq<Sample>,
    informant: Seq<(IntSeq, Option<IntSeq>)>,
) -> bool {
    &&& informant.len() == samples.len()
    &&& forall|i: int|
        0 <= i < samples.len() ==> unescape_symbols(symbols_of(samples[i].input@)) == Some(
            (#[trigger] informant[i]).0.symbols(),
        ) && match samples[i].output {
            Some(Some(o)) => informant[i].1.is_some() && unescape_symbols(symbols_of(o@))
                == Some(informant[i].1.unwrap().symbols()),
            _ => informant[i].1.is_none(),
        }
}

/// Whether every literal of the first `n` samples stands for a string.
pub open spec fn samples_readable(samples: Seq<Sample>, n: int) -> bool {
    forall|i: int|
        0 <= i < n ==> unescape_symbols(symbols_of((#[trigger] samples[i]).input@)).is_some()
            && match samples[i].output {
            Some(Some(o)) => unescape_symbols(symbols_of(o@)).is_some(),
            _ => true,
        }
}

/// The samples as they are handed to an external function; see
/// `samples_informant`. A literal that ends in a backslash that escapes
/// nothing stands for no string, and is an error.
pub fn samples_to_informant(pos: V, samples: &Vec<Sample>) -> (r: Result<Informant, CompErr>)
    ensures
        r is Ok <==> samples_readable(samples@, samples@.len() as int),
        r matches Ok(informant) ==> samples_informant(samples@, informant@),
        r matches Err(e) ==> (e matches CompErr::Parse(p, m) && p == pos && m@
            == "String literal has dangling backslash"@),
{
    let mut informant: Informant = Vec::with_capacity(samples.len());
    let mut i: usize = 0;
    while i < samples.len()
        invariant
            i <= samples.len(),
            informant@.len() == i,
            samples_readable(samples@, i as int),
            samples_informant(samples@.subrange(0, i as int), informant@),
        decreases samples.len() - i,
    {
        let input = match IntSeq::from_literal(pos, samples[i].input.as_str()) {
            Ok(x) => x,
            Err(e) => {
                assert(!samples_readable(samples@, samples@.len() as int)) by {
                    assert(unescape_symbols(symbols_of(samples@[i as int].input@)).is_none());
                }
                return Err(e);
            },
        };
        let output = match &samples[i].output {
            Some(Some(o)) => match IntSeq::from_literal(pos, o.as_str()) {
                Ok(y) => Some(y),
                Err(e) => {
                    assert(!samples_readable(samples@, samples@.len() as int)) by {
                        assert(samples@[i as int].output == Some(Some(*o)));
                    }
                    return Err(e);
                },
            },
            _ => None,
        };
        let ghost before = informant@;
        informant.push((input, output));
        proof {
            let part = samples@.subrange(0, i + 1);
            assert forall|k: int| 0 <= k < part.len() implies unescape_symbols(
                symbols_of(part[k].input@),
            ) == Some((#[trigger] informant@[k]).0.symbols()) && match part[k].output {
                Some(Some(o)) => informant@[k].1.is_some() && unescape_symbols(symbols_of(o@))
                    == Some(informant@[k].1.unwrap().symbols()),
                _ => informant@[k].1.is_none(),
            } by {
                if k < i {
                    assert(informant@[k] == before[k]);
                    assert(part[k] == samples@.subrange(0, i as int)[k]);
                }
            }
        }
        i = i + 1;
    }
    assert(samples@.subrange(0, i as int) =~= samples@);
    Ok(informant)
}

/// A copy of the lines.
pub fn copy_lines(lines: &Vec<String>) -> (r: Vec<String>)
    ensures
        r@ == lines@,
{
    let mut copy: Vec<String> = Vec::with_capacity(lines.len());
    let mut i: usize = 0;
    while i < lines.len()
        invariant
            i <= lines.len(),
            copy@ == lines@.subrange(0, i as int),
        decreases lines.len() - i,
    {
        copy.push(lines[i].clone());
        assert(copy@ =~= lines@.subrange(0, i + 1));
        i = i + 1;
    }
    assert(lines@.subrange(0, i as int) =~= lines@);
    copy
}

/// The place of the first dataset with the given path.
pub fn find_dataset(datasets: &Vec<Dataset>, path: &String) -> (r: Option<usize>)
    ensures
        r matches Some(i) ==> i < datasets@.len() && datasets@[i as int].path@ == path@
            && forall|k: int| 0 <= k < i ==> (#[trigger] datasets@[k]).path@ != path@,
        r.is_none() ==> forall|k: int|
            0 <= k < datasets@.len() ==> (#[trigger] datasets@[k]).path@ != path@,
{
    let mut i: usize = 0;
    while i < datasets.len()
        invariant
            i <= datasets.len(),
            forall|k: int| 0 <= k < i ==> (#[trigger] datasets@[k]).path@ != path@,
        decreases datasets.len() - i,
    {
        if datasets[i].path.eq(path) {
            return Some(i);
        }
        i = i + 1;
    }
    None
}

/// The error for a symbol that cannot be read.
pub fn null_on_input(pos: V) -> (r: CompErr)
    ensures
        r matches CompErr::Parse(p, m) && p == pos && m@ == "Null character not allowed on input"@,
{
    CompErr::Parse(pos, "Null character not allowed on input".to_owned())
}

/// Whether the graph is one that the call of an external function stands
/// for: the graph of a transducer that was learnt from samples; see
/// `learnt`. The function `ostiaCompress` learns from the samples that are
/// its argument, and the function `activeLearningFromDataset` from the
/// samples in the lines of the dataset that its argument names, which must
/// be among the datasets.
pub open spec fn call_made(
    name: Seq<char>,
    samples: Seq<Sample>,
    pos: V,
    datasets: Seq<Dataset>,
    g: GView,
) -> bool {
    exists|informant: Seq<(IntSeq, Option<IntSeq>)>, x: Inferred|
        #[trigger] learnt(informant, x, pos) && x.g@ == g && if name == "ostiaCompress"@ {
            samples_informant(samples, informant)
        } else {
            name == "activeLearningFromDataset"@ && exists|i: int|
                0 <= i < datasets.len() && Some((#[trigger] datasets[i]).path@) == named_dataset(
                    name,
                    samples,
                ) && read_from(datasets[i].lines@, informant)
        }
}

/// Whether `i` is the place of the first dataset with the given path.
pub open spec fn first_dataset(datasets: Seq<Dataset>, path: Seq<char>, i: int) -> bool {
    &&& 0 <= i < datasets.len()
    &&& datasets[i].path@ == path
    &&& forall|k: int| 0 <= k < i ==> (#[trigger] datasets[k]).path@ != path
}

/// Whether a dataset with the given path is among the datasets.
pub open spec fn dataset_known(datasets: Seq<Dataset>, path: Seq<char>) -> bool {
    exists|k: int| 0 <= k < datasets.len() && (#[trigger] datasets[k]).path@ == path
}

/// Whether `r` is the outcome of learning a graph from the samples, which
/// are those of the lines; see `read_from` and `learning`.
pub open spec fn learnt_from(
    lines: Seq<String>,
    informant: Seq<(IntSeq, Option<IntSeq>)>,
    pos: V,
    r: Result<G, CompErr>,
) -> bool {
    read_from(lines, informant) && learning(informant, pos, r)
}

/// Whether `r` is the outcome of the call of the external function `name`
/// with the given samples, where the functions of the given names are known
/// and the given datasets are at hand. A literal that stands for no string
/// is refused first; then a name that is not known; see `external_outcome`.
/// The function `ostiaCompress` learns a graph from the samples, and the
/// function `activeLearningFromDataset` from the samples in the lines of
/// the first dataset with the path that the one sample names; see
/// `learning`. A dataset that is not at hand is an error with the path for
/// its message.
pub open spec fn call_outcome(
    names: Seq<String>,
    name: Seq<char>,
    samples: Seq<Sample>,
    pos: V,
    datasets: Seq<Dataset>,
    r: Result<G, CompErr>,
) -> bool {
    if !samples_readable(samples, samples.len() as int) {
        r matches Err(CompErr::Parse(p, m)) && p == pos && m@
            == "String literal has dangling backslash"@
    } else if !known(names, name) || (name != "ostiaCompress"@ && name
        != "activeLearningFromDataset"@) {
        r matches Err(CompErr::UndefinedExternalFunc(p, n)) && p == pos && n@ == name
    } else if name == "ostiaCompress"@ {
        exists|informant: Seq<(IntSeq, Option<IntSeq>)>|
            samples_informant(samples, informant) && #[trigger] learning(informant, pos, r)
    } else if samples.len() != 1 {
        r matches Err(CompErr::IncorrectFunctionArguments(p, m)) && p == pos && m@
            == "Expected a single file path argument"@
    } else if !dataset_known(datasets, named_dataset(name, samples).unwrap()) {
        r matches Err(CompErr::Parse(p, m)) && p == pos && m@ == named_dataset(
            name,
            samples,
        ).unwrap()
    } else {
        exists|i: int, informant: Seq<(IntSeq, Option<IntSeq>)>|
            first_dataset(datasets, named_dataset(name, samples).unwrap(), i) && #[trigger] learnt_from(
                datasets[i].lines@,
                informant,
                pos,
                r,
            )
    }
}

/// Makes the graph that the call of an external function stands for; see
/// `call_outcome`.
pub fn compile_call<X: ExternalStage>(
    at: usize,
    name: &String,
    samples: &Vec<Sample>,
    state: &ParserState<X>,
    datasets: &Vec<Dataset>,
) -> (r: Result<G, CompErr>)
    ensures
        call_outcome(state.external_functions@, name@, samples@, V::Position(at), datasets@, r),
        r matches Ok(g) ==> g@.wf() && call_made(name@, samples@, V::Position(at), datasets@, g@),
{
    let pos = V::Position(at);
    let informant = match samples_to_informant(pos, samples) {
        Ok(i) => i,
        Err(e) => {
            return Err(e);
        },
    };
    let ghost taught = informant@;
    let mut args: FuncArgs = Vec::new();
    args.push(FuncArg::Informant(informant));
    assert(args@[0]->Informant_0@ == taught);
    proof {
        reveal_strlit("ostiaCompress");
        reveal_strlit("activeLearningFromDataset");
        assert("ostiaCompress"@.len() != "activeLearningFromDataset"@.len());
    }
    match state.external_function(name.clone(), pos, args) {
        Ok(ExternalAction::Graph(g)) => {
            proof {
                let x = choose|x: Inferred| #[trigger] learnt(taught, x, pos) && x.g@ == g@;
                assert(learnt(taught, x, pos) && x.g@ == g@ && samples_informant(
                    samples@,
                    taught,
                ));
                assert(call_made(name@, samples@, pos, datasets@, g@));
                assert(samples_informant(samples@, taught) && learning(
                    taught,
                    pos,
                    Ok::<G, CompErr>(g),
                ));
            }
            Ok(g)
        },
        Ok(ExternalAction::ReadDataset(path)) => {
            proof {
                lemma_chars_of_symbols(taught[0].0@);
                assert(named_dataset(name@, samples@) == Some(path@));
            }
            match find_dataset(datasets, &path) {
                Some(i) => {
                    let r = ostia_compress_file(pos, copy_lines(&datasets[i].lines));
                    proof {
                        assert(dataset_known(datasets@, path@)) by {
                            assert(datasets@[i as int].path@ == path@);
                        }
                        let lines = choose|lines: Seq<(IntSeq, Option<IntSeq>)>|
                            read_from(datasets@[i as int].lines@, lines) && #[trigger] learning(
                                lines,
                                pos,
                                r,
                            );
                        assert(first_dataset(datasets@, path@, i as int) && learnt_from(
                            datasets@[i as int].lines@,
                            lines,
                            pos,
                            r,
                        ));
                        if r is Ok {
                            let g = r->Ok_0;
                            let x = choose|x: Inferred| #[trigger]
                                learnt(lines, x, pos) && x.g@ == g@;
                            assert(learnt(lines, x, pos) && x.g@ == g@ && (exists|k: int|
                                0 <= k < datasets@.len() && Some((#[trigger] datasets@[k]).path@)
                                    == named_dataset(name@, samples@) && read_from(
                                    datasets@[k].lines@,
                                    lines,
                                )));
                            assert(call_made(name@, samples@, pos, datasets@, g@));
                        }
                    }
                    r
                },
                None => {
                    proof {
                        assert(!dataset_known(datasets@, path@));
                    }
                    Err(CompErr::Parse(pos, path))
                },
            }
        },
        Err(e) => {
            proof {
                if known(state.external_functions@, name@) && name@ == "ostiaCompress"@ {
                    assert(samples_informant(samples@, taught) && learning(
                        taught,
                        pos,
                        Err::<G, CompErr>(e),
                    ));
                }
            }
            Err(e)
        },
    }
}

/// Makes the graph that the expression stands for; see `meaning`. Names are
/// looked up in `state`, and a transducer that is used without a copy leaves
/// it. For a call of an external function see `call_outcome`: it stands for
/// a graph that was learnt from samples, and a call that learns from a
/// dataset takes the lines from `datasets`.
pub fn compile<X: ExternalStage>(
    e: &Expr,
    state: &mut ParserState<X>,
    datasets: &Vec<Dataset>,
) -> (r: Result<G, CompErr>)
    requires
        old(state).wf(),
    ensures
        final(state).wf(),
        final(state).pipelines == old(state).pipelines,
        final(state).external_functions == old(state).external_functions,
        r matches Ok(g) ==> g@.wf(),
        *e matches Expr::Call(at, name, samples) ==> final(state).variables == old(
            state,
        ).variables && call_outcome(
            old(state).external_functions@,
            name@,
            samples@,
            V::Position(at),
            datasets@,
            r,
        ) && (r matches Ok(g) ==> call_made(name@, samples@, V::Position(at), datasets@, g@)),
        !has_call(*e) ==> bindings(final(state).variables@) == meaning(
            *e,
            bindings(old(state).variables@),
        ).1,
        !has_call(*e) ==> match meaning(*e, bindings(old(state).variables@)).0 {
            Some(g) => r is Ok && r->Ok_0@ == g,
            None => r is Err,
        },
    decreases *e,
{
    match e {
        Expr::Input(at, s) => {
            let pos = V::Position(*at);
            let symbols = parse_literal(s.as_str()).collect();
            if is_plain(symbols.as_slice()) {
                Ok(G::new_from_iter(symbols.as_slice(), false, pos))
            } else {
                Err(null_on_input(pos))
            }
        },
        Expr::Output(at, s) => {
            let pos = V::Position(*at);
            match IntSeq::from_literal(pos, s.as_str()) {
                Ok(out) => {
                    proof {
                        lemma_chars_of_symbols(out@);
                    }
                    Ok(G::new_from_output_string(out))
                },
                Err(e) => Err(e),
            }
        },
        Expr::Bracket(at, s) => parse_range(s.as_str(), V::Position(*at)),
        Expr::Codepoints(at, s) => {
            let pos = V::Position(*at);
            match parse_codepoints(s.as_str(), pos) {
                Ok(text) => {
                    let symbols = symbols_of_str(text.as_str());
                    if is_plain(symbols.as_slice()) {
                        Ok(G::new_from_codepoints(symbols.as_slice(), pos))
                    } else {
                        Err(null_on_input(pos))
                    }
                },
                Err(e) => Err(e),
            }
        },
        Expr::CodepointRange(at, s) => parse_codepoint_range(s.as_str(), V::Position(*at)),
        Expr::Variable(at, name, copy) => {
            proof {
                lemma_variable_at(state.variables@, name@);
                lemma_binding_at(state.variables@, name@);
                match variable_at(state.variables@, name@) {
                    Some(i) => {
                        assert(bindings(state.variables@.remove(i)) =~= bindings(
                            state.variables@,
                        ).remove(i));
                    },
                    None => {},
                }
            }
            let found = if *copy {
                state.copy_variable(name)
            } else {
                state.consume_variable(name.clone())
            };
            match found {
                Some((_, _, g)) => Ok(g),
                None => Err(CompErr::UndefinedFunction(V::Position(*at), name.clone())),
            }
        },
        Expr::Call(at, name, samples) => compile_call(*at, name, samples, state, datasets),
        Expr::Group(inner) => compile(inner, state, datasets),
        Expr::Pre(w, inner) => match compile(inner, state, datasets) {
            Ok(g) => Ok(pre_w((*w, g))),
            Err(e) => Err(e),
        },
        Expr::Post(inner, w) => match compile(inner, state, datasets) {
            Ok(g) => Ok(post_w((g, *w))),
            Err(e) => Err(e),
        },
        Expr::Star(at, inner) => match compile(inner, state, datasets) {
            Ok(g) => g.kleene(V::Position(*at)),
            Err(e) => Err(e),
        },
        Expr::Plus(at, inner) => match compile(inner, state, datasets) {
            Ok(g) => g.kleene_semigroup(V::Position(*at)),
            Err(e) => Err(e),
        },
        Expr::Optional(at, inner) => match compile(inner, state, datasets) {
            Ok(g) => g.kleene_optional(V::Position(*at)),
            Err(e) => Err(e),
        },
        Expr::Concat(l, r) => match compile(l, state, datasets) {
            Ok(a) => match compile(r, state, datasets) {
                Ok(b) => Ok(a.concat(b)),
                Err(e) => Err(e),
            },
            Err(e) => Err(e),
        },
        Expr::Union(at, l, r) => match compile(l, state, datasets) {
            Ok(a) => match compile(r, state, datasets) {
                Ok(b) => a.union(b, V::Position(*at)),
                Err(e) => Err(e),
            },
            Err(e) => Err(e),
        },
    }
}


/// The error for a transducer with more nodes than the machine can number.
pub fn too_large(pos: V) -> (r: CompErr)
    ensures
        r matches CompErr::Parse(p, m) && p == pos && m@ == "Transducer is too large"@,
{
    CompErr::Parse(pos, "Transducer is too large".to_owned())
}

/// Whether the pipeline expression holds a call of an external function.
pub open spec fn pipe_has_call(p: Pipe) -> bool
    decreases p,
{
    match p {
        Pipe::Automaton(_, e) => has_call(e),
        Pipe::Named(_, _) => false,
        Pipe::Group(inner) => pipe_has_call(*inner),
        Pipe::Compose(l, r) => pipe_has_call(*l) || pipe_has_call(*r),
        Pipe::Alternative(l, r) => pipe_has_call(*l) || pipe_has_call(*r),
    }
}

/// What a pipeline expression without calls does to the transducers that
/// are bound: whether it stands for a pipeline, and the transducers that
/// are bound afterwards. Its parts are taken from left to right, and
/// nothing behind the first part that stands for no pipeline is looked at.
/// A transducer expression must stand for a graph that the machine can
/// number, and a name must be bound to a pipeline.
pub open spec fn pipe_effect<X: ExternalStage>(
    p: Pipe,
    bound: Seq<Binding>,
    chains: Seq<NamedPipeline<X>>,
) -> (bool, Seq<Binding>)
    decreases p,
{
    match p {
        Pipe::Automaton(_, e) => match meaning(e, bound) {
            (Some(g), rest) => (g.nodes.len() < usize::MAX, rest),
            (None, rest) => (false, rest),
        },
        Pipe::Named(_, name) => (pipeline_at(chains, name@).is_some(), bound),
        Pipe::Group(inner) => pipe_effect(*inner, bound, chains),
        Pipe::Compose(l, r) => {
            let (ok, mid) = pipe_effect(*l, bound, chains);
            if ok {
                pipe_effect(*r, mid, chains)
            } else {
                (false, mid)
            }
        },
        Pipe::Alternative(l, r) => {
            let (ok, mid) = pipe_effect(*l, bound, chains);
            if ok {
                pipe_effect(*r, mid, chains)
            } else {
                (false, mid)
            }
        },
    }
}

/// Whether the pipeline gives what a ranged graph of the graph gives.
pub open spec fn runs_graph<X: ExternalStage>(made: Pipeline<X>, g: GView) -> bool {
    exists|rg: RGView|
        #[trigger] is_ranged_of(g, rg) && forall|input: Seq<A>| #[trigger]
            made.output(input) == evaluate(rg, input)
}

/// Whether the two pipelines give the same.
pub open spec fn same_output<X: ExternalStage>(a: Pipeline<X>, b: Pipeline<X>) -> bool {
    forall|input: Seq<A>| #[trigger] a.output(input) == b.output(input)
}

/// Whether `made` gives what `a` and then `b` give.
pub open spec fn composed<X: ExternalStage>(
    a: Pipeline<X>,
    b: Pipeline<X>,
    made: Pipeline<X>,
) -> bool {
    forall|input: Seq<A>| #[trigger]
        made.output(input) == match a.output(input) {
            Some(mid) => b.output(mid),
            None => None,
        }
}

/// Whether `made` gives what `a` gives, and what `b` gives where `a`
/// rejects.
pub open spec fn alternated<X: ExternalStage>(
    a: Pipeline<X>,
    b: Pipeline<X>,
    made: Pipeline<X>,
) -> bool {
    forall|input: Seq<A>| #[trigger]
        made.output(input) == match a.output(input) {
            Some(out) => Some(out),
            None => b.output(input),
        }
}

/// Whether `made` is a pipeline that the pipeline expression stands for,
/// where the given transducers and pipelines are bound: a transducer
/// expression stands for a pipeline that runs a ranged graph of its graph, a
/// name for one that gives what the pipeline that is bound to it gives; a
/// semicolon composes, and `||` puts the right side in the place of the
/// left where the left rejects.
pub open spec fn pipe_made<X: ExternalStage>(
    p: Pipe,
    bound: Seq<Binding>,
    chains: Seq<NamedPipeline<X>>,
    made: Pipeline<X>,
) -> bool
    decreases p,
{
    match p {
        Pipe::Automaton(_, e) => meaning(e, bound).0 matches Some(g) && runs_graph(made, g),
        Pipe::Named(_, name) => pipeline_at(chains, name@) matches Some(i) && same_output(
            made,
            chains[i].pipeline,
        ),
        Pipe::Group(inner) => pipe_made(*inner, bound, chains, made),
        Pipe::Compose(l, r) => exists|a: Pipeline<X>, b: Pipeline<X>|
            pipe_made(*l, bound, chains, a) && pipe_made(
                *r,
                pipe_effect(*l, bound, chains).1,
                chains,
                b,
            ) && #[trigger] composed(a, b, made),
        Pipe::Alternative(l, r) => exists|a: Pipeline<X>, b: Pipeline<X>|
            pipe_made(*l, bound, chains, a) && pipe_made(
                *r,
                pipe_effect(*l, bound, chains).1,
                chains,
                b,
            ) && #[trigger] alternated(a, b, made),
    }
}

/// Whether `r` is what making a stage of the outcome `c` of a call gives:
/// an error stays an error, and a graph becomes a pipeline that runs a
/// ranged graph of it, unless it has more nodes than the machine can number.
pub open spec fn call_staged<X: ExternalStage>(
    c: Result<G, CompErr>,
    r: Result<Pipeline<X>, CompErr>,
) -> bool {
    match c {
        Err(_) => r is Err,
        Ok(g) => (r is Ok) == (g@.nodes.len() < usize::MAX) && (r matches Ok(made)
            ==> runs_graph(made, g@)),
    }
}

/// Makes the pipeline that the pipeline expression stands for; see
/// `pipe_made` and `pipe_effect`, and for a stage that is a call
/// `call_outcome` and `call_staged`. A name stands for a copy of the
/// pipeline that is bound to it.
pub fn compile_pipe<X: ExternalStage + Copy>(
    p: &Pipe,
    state: &mut ParserState<X>,
    datasets: &Vec<Dataset>,
) -> (r: Result<Pipeline<X>, CompErr>)
    requires
        old(state).wf(),
    ensures
        final(state).wf(),
        final(state).pipelines == old(state).pipelines,
        final(state).external_functions == old(state).external_functions,
        r matches Ok(made) ==> made.wf(),
        *p matches Pipe::Named(at, name) ==> final(state).variables == old(state).variables && (
        pipeline_at(old(state).pipelines@, name@).is_none() ==> (r matches Err(
            CompErr::UndefinedPipeline(pos, n),
        ) && pos == V::Position(at) && n@ == name@)),
        !pipe_has_call(*p) ==> (r is Ok) == pipe_effect(
            *p,
            bindings(old(state).variables@),
            old(state).pipelines@,
        ).0 && bindings(final(state).variables@) == pipe_effect(
            *p,
            bindings(old(state).variables@),
            old(state).pipelines@,
        ).1,
        !pipe_has_call(*p) ==> (r matches Ok(made) ==> pipe_made(
            *p,
            bindings(old(state).variables@),
            old(state).pipelines@,
            made,
        )),
        *p matches Pipe::Automaton(at, Expr::Call(place, called, samples))
            ==> final(state).variables == old(state).variables && exists|c: Result<G, CompErr>|
            call_outcome(
                old(state).external_functions@,
                called@,
                samples@,
                V::Position(place),
                datasets@,
                c,
            ) && #[trigger] call_staged(c, r),
    decreases *p,
{
    let ghost bound = bindings(state.variables@);
    let ghost chains = state.pipelines@;
    match p {
        Pipe::Automaton(at, e) => {
            let pos = V::Position(*at);
            let compiled = compile(e, state, datasets);
            let ghost outcome = compiled;
            let r = match compiled {
                Ok(g) => {
                    if g.pool.len() == usize::MAX {
                        Err(too_large(pos))
                    } else {
                        let rg = g.optimise_graph();
                        let made = Pipeline::new(rg, pos);
                        proof {
                            assert(is_ranged_of(g@, rg@));
                            assert(runs_graph(made, g@));
                        }
                        Ok(made)
                    }
                },
                Err(e) => Err(e),
            };
            proof {
                if e is Call {
                    assert(call_staged(outcome, r));
                }
            }
            r
        },
        Pipe::Named(at, name) => match state.find_pipeline(name) {
            Some(i) => {
                let made = state.pipelines[i].pipeline.copy_pipeline();
                proof {
                    assert(same_output(made, chains[i as int].pipeline));
                }
                Ok(made)
            },
            None => Err(CompErr::UndefinedPipeline(V::Position(*at), name.clone())),
        },
        Pipe::Group(inner) => compile_pipe(inner, state, datasets),
        Pipe::Compose(l, r) => match compile_pipe(l, state, datasets) {
            Ok(a) => match compile_pipe(r, state, datasets) {
                Ok(b) => {
                    let made = a.composition(b);
                    proof {
                        if !pipe_has_call(*p) {
                            assert(composed(a, b, made));
                        }
                    }
                    Ok(made)
                },
                Err(e) => Err(e),
            },
            Err(e) => Err(e),
        },
        Pipe::Alternative(l, r) => match compile_pipe(l, state, datasets) {
            Ok(a) => match compile_pipe(r, state, datasets) {
                Ok(b) => {
                    let made = a.alternative(b);
                    proof {
                        if !pipe_has_call(*p) {
                            assert(alternated(a, b, made));
                        }
                    }
                    Ok(made)
                },
                Err(e) => Err(e),
            },
            Err(e) => Err(e),
        },
    }
}

/// What binding a graph to a name makes of the transducers that are bound,
/// and whether it succeeds: a graph with more nodes than the machine can
/// number is not bound; a name that is bound already is bound anew, which
/// fails; another name is bound behind all others.
pub open spec fn bound_after(name: Seq<char>, always_copy: bool, g: GView, rest: Seq<Binding>) -> (
    bool,
    Seq<Binding>,
) {
    if g.nodes.len() >= usize::MAX {
        (false, rest)
    } else {
        let made = Binding { name, always_copy, g };
        match binding_at(rest, name) {
            Some(i) => (false, rest.update(i, made)),
            None => (true, rest.push(made)),
        }
    }
}

/// Whether binding the outcome `r` of a call to the name makes the state
/// `after` of the state `before`: an error binds nothing, and a graph is
/// bound as `bound_after` says.
pub open spec fn call_bound<X: ExternalStage>(
    name: Seq<char>,
    always_copy: bool,
    r: Result<G, CompErr>,
    before: ParserState<X>,
    after: ParserState<X>,
    ok: bool,
) -> bool {
    match r {
        Err(_) => !ok && after.variables == before.variables,
        Ok(g) => (ok, bindings(after.variables@)) == bound_after(
            name,
            always_copy,
            g@,
            bindings(before.variables@),
        ),
    }
}

/// Whether the statement binds a transducer to a name and holds no call of
/// an external function.
pub open spec fn plain_statement(s: Statement) -> bool {
    s matches Statement::Define { offset, name, always_copy, nonfunc, body } && !has_call(body)
}

/// What a statement without calls does to the transducers that are bound:
/// whether it succeeds, and the transducers that are bound afterwards. The
/// expression is taken first, and uses up the names that it uses; see
/// `meaning`. Then what it stands for is bound to the name. A name that is
/// bound already is bound anew, and the statement fails. A statement whose
/// expression stands for no graph, or for one with more nodes than the
/// machine can number, fails and binds nothing.
pub open spec fn after_statement(s: Statement, bound: Seq<Binding>) -> (bool, Seq<Binding>) {
    match s {
        Statement::Define { offset, name, always_copy, nonfunc, body } => match meaning(
            body,
            bound,
        ) {
            (None, rest) => (false, rest),
            (Some(g), rest) => bound_after(name@, always_copy, g, rest),
        },
        Statement::Chain { offset, name, stages } => (false, bound),
    }
}

/// What the first `n` statements of a program without calls and pipelines
/// do to the transducers that are bound: whether all of them succeed, and
/// the transducers that are bound when the first of them fails or all are
/// done.
pub open spec fn after_program(statements: Seq<Statement>, n: nat, bound: Seq<Binding>) -> (
    bool,
    Seq<Binding>,
)
    decreases n,
{
    if n == 0 || n > statements.len() {
        (true, bound)
    } else {
        let (ok, mid) = after_program(statements, (n - 1) as nat, bound);
        if ok {
            after_statement(statements[n - 1], mid)
        } else {
            (false, mid)
        }
    }
}

/// Whether every statement of the program binds a transducer to a name and
/// holds no call of an external function.
pub open spec fn plain_program(statements: Seq<Statement>) -> bool {
    forall|i: int| 0 <= i < statements.len() ==> plain_statement(#[trigger] statements[i])
}

/// Whether the state `after` is what binding the pipeline of a pipeline
/// expression without calls to the name makes of the state `before`. The
/// expression is taken first, and uses up the names of transducers that it
/// uses; see `pipe_effect`. Where it stands for no pipeline, nothing is
/// bound, and the statement fails. Otherwise a pipeline that it stands for is
/// bound to the name; see `pipe_made`. A name that is bound already is
/// bound anew, and the statement fails.
pub open spec fn chained<X: ExternalStage>(
    stages: Pipe,
    name: Seq<char>,
    before: ParserState<X>,
    after: ParserState<X>,
    ok: bool,
) -> bool {
    let (made, rest) = pipe_effect(stages, bindings(before.variables@), before.pipelines@);
    &&& bindings(after.variables@) == rest
    &&& ok == (made && pipeline_at(before.pipelines@, name).is_none())
    &&& !made ==> after.pipelines == before.pipelines
    &&& made ==> match pipeline_at(before.pipelines@, name) {
        Some(i) => after.pipelines@.len() == before.pipelines@.len() && pipe_made(
            stages,
            bindings(before.variables@),
            before.pipelines@,
            after.pipelines@[i].pipeline,
        ),
        None => after.pipelines@.len() == before.pipelines@.len() + 1
            && after.pipelines@.last().name@ == name && pipe_made(
            stages,
            bindings(before.variables@),
            before.pipelines@,
            after.pipelines@.last().pipeline,
        ),
    }
}

/// What is stated of carrying out one statement, which makes the state
/// `after` of the state `before` and succeeds or fails. A statement that
/// binds a transducer leaves the pipelines as they are. For one without
/// calls see `after_statement`. One whose expression is a call binds the
/// outcome of the call; see `call_outcome` and `call_bound`. For a
/// statement that binds a pipeline and holds no call see `chained`.
pub open spec fn statement_run<X: ExternalStage>(
    s: Statement,
    datasets: Seq<Dataset>,
    before: ParserState<X>,
    after: ParserState<X>,
    ok: bool,
) -> bool {
    match s {
        Statement::Define { offset, name, always_copy, nonfunc, body } => {
            &&& after.pipelines == before.pipelines
            &&& !has_call(body) ==> (ok, bindings(after.variables@)) == after_statement(
                s,
                bindings(before.variables@),
            )
            &&& body matches Expr::Call(at, called, samples) ==> exists|r: Result<G, CompErr>|
                call_outcome(
                    before.external_functions@,
                    called@,
                    samples@,
                    V::Position(at),
                    datasets,
                    r,
                ) && (r matches Ok(g) ==> call_made(
                    called@,
                    samples@,
                    V::Position(at),
                    datasets,
                    g@,
                )) && #[trigger] call_bound(name@, always_copy, r, before, after, ok)
        },
        Statement::Chain { offset, name, stages } => !pipe_has_call(stages) ==> chained(
            stages,
            name@,
            before,
            after,
            ok,
        ),
    }
}

/// What is stated of one step of a program: a statement is carried out
/// where all statements before it succeeded, and nothing is done where one
/// of them failed.
pub open spec fn step_run<X: ExternalStage>(
    s: Statement,
    datasets: Seq<Dataset>,
    mid: ParserState<X>,
    after: ParserState<X>,
    fine: bool,
    ok: bool,
) -> bool {
    if fine {
        statement_run(s, datasets, mid, after, ok)
    } else {
        !ok && after == mid
    }
}

/// What is stated of carrying out the first `n` statements of a program in
/// turn, up to the first that fails: the states between them are such that
/// each step is as `step_run` says.
pub open spec fn program_run<X: ExternalStage>(
    statements: Seq<Statement>,
    n: nat,
    datasets: Seq<Dataset>,
    before: ParserState<X>,
    after: ParserState<X>,
    ok: bool,
) -> bool
    decreases n,
{
    if n == 0 || n > statements.len() {
        ok && after == before
    } else {
        exists|mid: ParserState<X>, fine: bool|
            program_run(statements, (n - 1) as nat, datasets, before, mid, fine)
                && #[trigger] step_run(statements[n - 1], datasets, mid, after, fine, ok)
    }
}

/// A program that has failed stays as it is.
pub proof fn lemma_program_stays<X: ExternalStage>(
    statements: Seq<Statement>,
    k: nat,
    n: nat,
    datasets: Seq<Dataset>,
    before: ParserState<X>,
    after: ParserState<X>,
)
    requires
        k <= n <= statements.len(),
        program_run(statements, k, datasets, before, after, false),
    ensures
        program_run(statements, n, datasets, before, after, false),
    decreases n - k,
{
    if k < n {
        lemma_program_stays(statements, k, (n - 1) as nat, datasets, before, after);
        assert(step_run(statements[n - 1], datasets, after, after, false, false));
    }
}

/// Carries out one statement: compiles its expression and binds what it
/// stands for to the name; see `statement_run`. A name that is bound already
/// is bound anew, and that is reported as an error.
pub fn run_statement<X: ExternalStage + Copy>(
    statement: &Statement,
    state: &mut ParserState<X>,
    datasets: &Vec<Dataset>,
) -> (r: Result<(), CompErr>)
    requires
        old(state).wf(),
    ensures
        final(state).wf(),
        final(state).external_functions == old(state).external_functions,
        *statement matches Statement::Define { offset, name, always_copy, nonfunc, body }
            ==> final(state).pipelines == old(state).pipelines,
        plain_statement(*statement) ==> (r is Ok) == after_statement(
            *statement,
            bindings(old(state).variables@),
        ).0 && bindings(final(state).variables@) == after_statement(
            *statement,
            bindings(old(state).variables@),
        ).1,
        *statement matches Statement::Chain { offset, name, stages } ==> !pipe_has_call(stages)
            ==> chained(stages, name@, *old(state), *final(state), r is Ok),
        statement_run(*statement, datasets@, *old(state), *final(state), r is Ok),
{
    match statement {
        Statement::Define { offset, name, always_copy, nonfunc, body } => {
            let pos = V::Position(*offset);
            let compiled = compile(body, state, datasets);
            let ghost outcome = compiled;
            let ghost rest_state = *state;
            let r = match compiled {
                Ok(g) => {
                    if g.pool.len() == usize::MAX {
                        Err(too_large(pos))
                    } else {
                        let ghost rest = state.variables@;
                        let ghost made = Binding { name: name@, always_copy: *always_copy, g: g@ };
                        let r = state.introduce_variable(name.clone(), pos, *always_copy, g);
                        proof {
                            lemma_binding_at(rest, name@);
                            lemma_variable_at(rest, name@);
                            match variable_at(rest, name@) {
                                Some(i) => {
                                    assert(bindings(state.variables@) =~= bindings(rest).update(
                                        i,
                                        made,
                                    ));
                                },
                                None => {
                                    assert(state.variables@.subrange(0, rest.len() as int)
                                        == rest);
                                    assert forall|k: int| 0 <= k < rest.len() implies bindings(
                                        state.variables@,
                                    )[k] == bindings(rest)[k] by {
                                        assert(state.variables@.subrange(0, rest.len() as int)[k]
                                            == state.variables@[k]);
                                    }
                                    assert(bindings(state.variables@) =~= bindings(rest).push(
                                        made,
                                    ));
                                    assert(bindings(state.variables@).drop_last() =~= bindings(
                                        rest,
                                    ));
                                    assert(bindings(state.variables@).last() == made);
                                },
                            }
                        }
                        r
                    }
                },
                Err(e) => Err(e),
            };
            proof {
                if body is Call {
                    assert(rest_state.variables == old(state).variables);
                    assert(call_bound(name@, *always_copy, outcome, *old(state), *state, r is Ok));
                }
            }
            r
        },
        Statement::Chain { offset, name, stages } => {
            match compile_pipe(stages, state, datasets) {
                Ok(p) => state.register_pipeline(name.clone(), V::Position(*offset), p),
                Err(e) => Err(e),
            }
        },
    }
}

/// Carries out the statements in turn, up to the first that fails; see
/// `program_run`, and for a program without calls and pipelines
/// `after_program`.
pub fn run_program<X: ExternalStage + Copy>(
    statements: &Vec<Statement>,
    state: &mut ParserState<X>,
    datasets: &Vec<Dataset>,
) -> (r: Result<(), CompErr>)
    requires
        old(state).wf(),
    ensures
        final(state).wf(),
        final(state).external_functions == old(state).external_functions,
        program_run(
            statements@,
            statements@.len(),
            datasets@,
            *old(state),
            *final(state),
            r is Ok,
        ),
        plain_program(statements@) ==> final(state).pipelines == old(state).pipelines && (r
            is Ok) == after_program(
            statements@,
            statements@.len(),
            bindings(old(state).variables@),
        ).0 && bindings(final(state).variables@) == after_program(
            statements@,
            statements@.len(),
            bindings(old(state).variables@),
        ).1,
{
    let mut i: usize = 0;
    while i < statements.len()
        invariant
            i <= statements.len(),
            state.wf(),
            state.external_functions == old(state).external_functions,
            program_run(statements@, i as nat, datasets@, *old(state), *state, true),
            plain_program(statements@) ==> state.pipelines == old(state).pipelines
                && after_program(statements@, i as nat, bindings(old(state).variables@)) == (
                true,
                bindings(state.variables@),
            ),
        decreases statements.len() - i,
    {
        proof {
            if plain_program(statements@) {
                assert(plain_statement(statements@[i as int]));
            }
        }
        let ghost mid = *state;
        let r = run_statement(&statements[i], state, datasets);
        proof {
            assert(program_run(statements@, i as nat, datasets@, *old(state), mid, true));
            assert(step_run(statements@[i as int], datasets@, mid, *state, true, r is Ok));
            assert(((i + 1) as nat - 1) as nat == i as nat);
            assert(program_run(
                statements@,
                (i + 1) as nat,
                datasets@,
                *old(state),
                *state,
                r is Ok,
            ));
        }
        match r {
            Ok(()) => {},
            Err(e) => {
                proof {
                    lemma_program_stays(
                        statements@,
                        (i + 1) as nat,
                        statements@.len(),
                        datasets@,
                        *old(state),
                        *state,
                    );
                    if plain_program(statements@) {
                        lemma_program_failed(
                            statements@,
                            (i + 1) as nat,
                            statements@.len(),
                            bindings(old(state).variables@),
                        );
                    }
                }
                return Err(e);
            },
        }
        i = i + 1;
    }
    Ok(())
}

/// A program that has failed stays as it is.
pub proof fn lemma_program_failed(statements: Seq<Statement>, k: nat, n: nat, bound: Seq<Binding>)
    requires
        k <= n <= statements.len(),
        !after_program(statements, k, bound).0,
    ensures
        after_program(statements, n, bound) == after_program(statements, k, bound),
    decreases n - k,
{
    if k < n {
        lemma_program_failed(statements, k, (n - 1) as nat, bound);
    }
}


/// Whether the state `after` is what carrying out the statements makes of
/// the state `before`, as far as this is stated; see `program_run`, and for
/// a program without calls and pipelines `after_program`.
pub open spec fn carried_out<X: ExternalStage>(
    statements: Seq<Statement>,
    datasets: Seq<Dataset>,
    before: ParserState<X>,
    after: ParserState<X>,
    ok: bool,
) -> bool {
    &&& program_run(statements, statements.len(), datasets, before, after, ok)
    &&& plain_program(statements) ==> after.pipelines == before.pipelines && ok == after_program(
        statements,
        statements.len(),
        bindings(before.variables@),
    ).0 && bindings(after.variables@) == after_program(
        statements,
        statements.len(),
        bindings(before.variables@),
    ).1
}

/// Whether the state `after` is what reading the source text and carrying
/// out its statements makes of the state `before`, with the outcome `r`. A
/// text whose tokens cannot be read, or are no statements, is refused and
/// changes nothing; see `tokens_from` and `statements_from`. Otherwise
/// statements that are written by exactly the tokens of the text are
/// carried out; see `carried_out`.
pub open spec fn source_run<X: ExternalStage>(
    source: Seq<char>,
    datasets: Seq<Dataset>,
    before: ParserState<X>,
    after: ParserState<X>,
    r: Result<(), CompErr>,
) -> bool {
    match tokens_from(symbols_of(source), 0) {
        Err(at) => r matches Err(CompErr::Parse(p, _)) && p == V::Position(at as usize) && after
            == before,
        Ok(v) => if !statements_from(v.map_values(|x: (TokView, usize)| x.0), 0) {
            r matches Err(CompErr::Parse(_, _)) && after == before
        } else {
            exists|statements: Seq<Statement>|
                written(spelled_program(statements, statements.len())) == v.map_values(
                    |x: (TokView, usize)| x.0,
                ) && #[trigger] carried_out(statements, datasets, before, after, r is Ok)
        },
    }
}

/// Reads the source text and carries out its statements in turn, up to the
/// first that fails; see `source_run`.
pub fn run_source<X: ExternalStage + Copy>(
    source: &str,
    state: &mut ParserState<X>,
    datasets: &Vec<Dataset>,
) -> (r: Result<(), CompErr>)
    requires
        old(state).wf(),
    ensures
        final(state).wf(),
        final(state).external_functions == old(state).external_functions,
        source_run(source@, datasets@, *old(state), *final(state), r),
{
    match parse(source) {
        Ok(statements) => {
            let r = run_program(&statements, state, datasets);
            proof {
                assert(carried_out(statements@, datasets@, *old(state), *state, r is Ok));
            }
            r
        },
        Err(e) => Err(e),
    }
}

} // verus!
