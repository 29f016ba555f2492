use crate::compilation_error::CompErr;
use crate::int_seq::symbols_of;
use crate::grammar::{
    atom_end, concat_end, defines, definition_name, item_begins, item_end, kinds, more_items_end, more_pipes_end,
    more_samples_end, more_stages_end, more_unions_end, pipe_end, sample_end, samples_end,
    stage_end, stages_end, statement_begins, statement_end, statements_from, union_end,
    weighted_end,
};
use crate::lexer::{lex, tokens_from, tokens_view, Tok, TokView, Token};
use crate::p::W;
use crate::syntax::{
    pipe_rank, pipe_shaped, rank, shaped, spelled, spelled_pipe, spelled_program, spelled_sample,
    spelled_samples, spelled_statement, statement_shaped, toks, Expr, Pipe, Sample, Statement,
};
use crate::v::V;
use vstd::prelude::*;

verus! {

/// The error for a token that cannot stand at the place `pos`, or for a text
/// that ends there.
pub fn unexpected(tokens: &Vec<Token>, pos: usize, text: &str) -> (r: CompErr)
    ensures
        r matches CompErr::Parse(p, m) && m@ == text@ && p == (if pos < tokens@.len() {
            V::Position(tokens@[pos as int].offset)
        } else {
            V::UNKNOWN
        }),
{
    if pos < tokens.len() {
        CompErr::Parse(V::Position(tokens[pos].offset), text.to_owned())
    } else {
        CompErr::Parse(V::UNKNOWN, text.to_owned())
    }
}

/// Whether the token at the place `pos` is `=`.
pub fn assign_at(tokens: &Vec<Token>, pos: usize) -> (r: bool)
    ensures
        r == (pos < tokens@.len() && tokens@[pos as int].tok is Assign),
        r == (pos < tokens@.len() && kinds(tokens@)[pos as int] is Assign),
{
    if pos < tokens.len() {
        match &tokens[pos].tok {
            Tok::Assign => true,
            _ => false,
        }
    } else {
        false
    }
}

/// Whether the token at the place `pos` is a name.
pub fn name_at(tokens: &Vec<Token>, pos: usize) -> (r: bool)
    ensures
        r == (pos < tokens@.len() && tokens@[pos as int].tok is Id),
        r == (pos < tokens@.len() && kinds(tokens@)[pos as int] is Id),
{
    if pos < tokens.len() {
        match &tokens[pos].tok {
            Tok::Id(_) => true,
            _ => false,
        }
    } else {
        false
    }
}

/// Whether the token at the place `pos` is `)`.
pub fn close_at(tokens: &Vec<Token>, pos: usize) -> (r: bool)
    ensures
        r == (pos < tokens@.len() && tokens@[pos as int].tok is Close),
        r == (pos < tokens@.len() && kinds(tokens@)[pos as int] is Close),
{
    if pos < tokens.len() {
        match &tokens[pos].tok {
            Tok::Close => true,
            _ => false,
        }
    } else {
        false
    }
}

/// The weight at the place `pos`, if a weight stands there.
pub fn weight_at(tokens: &Vec<Token>, pos: usize) -> (r: Option<W>)
    ensures
        r matches Some(w) ==> pos < tokens@.len() && tokens@[pos as int].tok == Tok::Number(w),
        r.is_some() == (pos < tokens@.len() && kinds(tokens@)[pos as int] is Number),
{
    if pos < tokens.len() {
        match &tokens[pos].tok {
            Tok::Number(w) => Some(*w),
            _ => None,
        }
    } else {
        None
    }
}

/// Whether a statement begins at the place `pos`: a name and `=`, the same
/// behind `!!` or `nonfunc`, or `@`, a name and `=`.
pub fn statement_at(tokens: &Vec<Token>, pos: usize) -> (r: bool)
    ensures
        r == statement_begins(kinds(tokens@), pos as int),
{
    if pos >= tokens.len() {
        return false;
    }
    match &tokens[pos].tok {
        Tok::Id(_) => assign_at(tokens, pos + 1),
        Tok::Nonfunc => true,
        Tok::Copy => tokens.len() - pos > 2 && name_at(tokens, pos + 1) && assign_at(
            tokens,
            pos + 2,
        ),
        Tok::At => tokens.len() - pos > 2 && name_at(tokens, pos + 1) && assign_at(
            tokens,
            pos + 2,
        ),
        _ => false,
    }
}

/// Whether an expression can begin at the place `pos`, and no statement
/// begins there.
pub fn item_at(tokens: &Vec<Token>, pos: usize) -> (r: bool)
    ensures
        r == item_begins(kinds(tokens@), pos as int),
{
    if pos >= tokens.len() || statement_at(tokens, pos) {
        return false;
    }
    match &tokens[pos].tok {
        Tok::Literal(_) | Tok::Colon | Tok::Bracket(_) | Tok::Codepoints(_) | Tok::CodepointRange(
            _,
        ) | Tok::Open | Tok::Copy | Tok::Id(_) => true,
        _ => false,
    }
}

/// Reads one sample of an argument: a string literal, alone or followed by a
/// colon and a string literal or the sign of the empty set.
#[verifier::spinoff_prover]
#[verifier::rlimit(50)]
pub fn parse_sample(tokens: &Vec<Token>, pos: usize) -> (r: Result<(Sample, usize), CompErr>)
    ensures
        r matches Err(e) ==> e is Parse,
        r is Ok <==> sample_end(kinds(tokens@), pos as int).is_some(),
        r matches Ok((_, next)) ==> sample_end(kinds(tokens@), pos as int) == Some(next as int),
        r matches Ok((sample, next)) ==> pos < next <= tokens@.len() && spelled_sample(sample)
            == toks(tokens@).subrange(pos as int, next as int),
{
    if pos >= tokens.len() {
        return Err(unexpected(tokens, pos, "A string literal is expected"));
    }
    let ghost all = toks(tokens@);
    let input = match &tokens[pos].tok {
        Tok::Literal(s) => s.clone(),
        _ => {
            return Err(unexpected(tokens, pos, "A string literal is expected"));
        },
    };
    assert(all[pos as int] == Tok::Literal(input));
    let colon = tokens.len() - pos > 2 && match &tokens[pos + 1].tok {
        Tok::Colon => true,
        _ => false,
    };
    if colon {
        assert(all[pos + 1] == Tok::Colon);
        match &tokens[pos + 2].tok {
            Tok::Literal(o) => {
                let sample = Sample { input, output: Some(Some(o.clone())) };
                assert(all[pos + 2] == Tok::Literal(*o));
                assert(spelled_sample(sample) =~= all.subrange(pos as int, pos + 3));
                Ok((sample, pos + 3))
            },
            Tok::Nothing => {
                let sample = Sample { input, output: Some(None) };
                assert(all[pos + 2] == Tok::Nothing);
                assert(spelled_sample(sample) =~= all.subrange(pos as int, pos + 3));
                Ok((sample, pos + 3))
            },
            _ => Err(unexpected(tokens, pos + 2, "A string literal is expected")),
        }
    } else {
        let sample = Sample { input, output: None };
        assert(spelled_sample(sample) =~= all.subrange(pos as int, pos + 1));
        Ok((sample, pos + 1))
    }
}

/// Reads the samples of an argument, with commas between them, up to the
/// parenthesis that closes the call.
#[verifier::spinoff_prover]
#[verifier::rlimit(50)]
pub fn parse_samples(tokens: &Vec<Token>, pos: usize) -> (r: Result<(Vec<Sample>, usize), CompErr>)
    ensures
        r matches Err(e) ==> e is Parse,
        r is Ok <==> samples_end(kinds(tokens@), pos as int).is_some(),
        r matches Ok((_, next)) ==> samples_end(kinds(tokens@), pos as int) == Some(next as int),
        r matches Ok((samples, next)) ==> pos <= next < tokens@.len() && tokens@[next as int].tok
            is Close && spelled_samples(samples@, samples@.len()) == toks(tokens@).subrange(
            pos as int,
            next as int,
        ),
{
    let ghost all = toks(tokens@);
    let mut samples: Vec<Sample> = Vec::new();
    if close_at(tokens, pos) {
        assert(spelled_samples(samples@, 0) =~= all.subrange(pos as int, pos as int));
        return Ok((samples, pos));
    }
    let mut cur = match parse_sample(tokens, pos) {
        Ok((sample, next)) => {
            samples.push(sample);
            next
        },
        Err(e) => {
            return Err(e);
        },
    };
    loop
        invariant
            pos < cur <= tokens@.len(),
            all == toks(tokens@),
            samples@.len() >= 1,
            samples_end(kinds(tokens@), pos as int) == more_samples_end(kinds(tokens@), cur as int),
            spelled_samples(samples@, samples@.len()) == all.subrange(pos as int, cur as int),
        decreases tokens@.len() - cur,
    {
        if close_at(tokens, cur) {
            return Ok((samples, cur));
        }
        let comma = cur < tokens.len() && match &tokens[cur].tok {
            Tok::Comma => true,
            _ => false,
        };
        if !comma {
            return Err(unexpected(tokens, cur, "A comma or a closing parenthesis is expected"));
        }
        match parse_sample(tokens, cur + 1) {
            Ok((sample, next)) => {
                let ghost before = samples@;
                samples.push(sample);
                proof {
                    let n = samples@.len();
                    assert(samples@.subrange(0, n - 1) =~= before);
                    lemma_spelled_samples_prefix(samples@, before, (n - 1) as nat);
                    assert(all[cur as int] == Tok::Comma);
                    assert(spelled_samples(samples@, n) =~= all.subrange(pos as int, next as int));
                }
                cur = next;
            },
            Err(e) => {
                return Err(e);
            },
        }
    }
}

/// How the first samples are written does not depend on the samples behind
/// them.
pub proof fn lemma_spelled_samples_prefix(a: Seq<Sample>, b: Seq<Sample>, n: nat)
    requires
        n <= a.len(),
        n <= b.len(),
        forall|i: int| 0 <= i < n ==> a[i] == b[i],
    ensures
        spelled_samples(a, n) == spelled_samples(b, n),
    decreases n,
{
    if n > 1 {
        lemma_spelled_samples_prefix(a, b, (n - 1) as nat);
    }
}


/// Reads an output: a colon, which stands at `pos`, and a string literal.
pub fn parse_output(tokens: &Vec<Token>, pos: usize) -> (r: Result<(Expr, usize), CompErr>)
    requires
        pos < tokens@.len(),
        tokens@[pos as int].tok is Colon,
    ensures
        r matches Ok((e, _)) ==> shaped(e) && rank(e) == 0,
        r matches Err(e) ==> e is Parse,
        r is Ok <==> atom_end(kinds(tokens@), pos as int).is_some(),
        r matches Ok((_, next)) ==> atom_end(kinds(tokens@), pos as int) == Some(next as int),
        r matches Ok((e, next)) ==> pos < next <= tokens@.len() && spelled(e) == toks(
            tokens@,
        ).subrange(pos as int, next as int),
{
    let ghost all = toks(tokens@);
    let ghost k = kinds(tokens@);
    let at = tokens[pos].offset;
    assert(k[pos as int] == tokens@[pos as int].tok@);
    if tokens.len() - pos < 2 {
        return Err(unexpected(tokens, pos + 1, "A string literal is expected"));
    }
    assert(k[pos + 1] == tokens@[pos + 1].tok@);
    match &tokens[pos + 1].tok {
        Tok::Literal(s) => {
            let e = Expr::Output(at, s.clone());
            assert(all[pos + 1] == Tok::Literal(*s));
            assert(spelled(e) =~= all.subrange(pos as int, pos + 2));
            Ok((e, pos + 2))
        },
        _ => Err(unexpected(tokens, pos + 1, "A string literal is expected")),
    }
}

/// Reads the use of a copy: `!!`, which stands at `pos`, and a name.
pub fn parse_copy(tokens: &Vec<Token>, pos: usize) -> (r: Result<(Expr, usize), CompErr>)
    requires
        pos < tokens@.len(),
        tokens@[pos as int].tok is Copy,
    ensures
        r matches Ok((e, _)) ==> shaped(e) && rank(e) == 0,
        r matches Err(e) ==> e is Parse,
        r is Ok <==> atom_end(kinds(tokens@), pos as int).is_some(),
        r matches Ok((_, next)) ==> atom_end(kinds(tokens@), pos as int) == Some(next as int),
        r matches Ok((e, next)) ==> pos < next <= tokens@.len() && spelled(e) == toks(
            tokens@,
        ).subrange(pos as int, next as int),
{
    let ghost all = toks(tokens@);
    let ghost k = kinds(tokens@);
    let at = tokens[pos].offset;
    assert(k[pos as int] == tokens@[pos as int].tok@);
    if tokens.len() - pos < 2 {
        return Err(unexpected(tokens, pos + 1, "A name is expected"));
    }
    assert(k[pos + 1] == tokens@[pos + 1].tok@);
    match &tokens[pos + 1].tok {
        Tok::Id(name) => {
            let e = Expr::Variable(at, name.clone(), true);
            assert(all[pos + 1] == Tok::Id(*name));
            assert(spelled(e) =~= all.subrange(pos as int, pos + 2));
            Ok((e, pos + 2))
        },
        _ => Err(unexpected(tokens, pos + 1, "A name is expected")),
    }
}

/// Reads what begins with a name, which stands at `pos`: a call, if `!(`
/// stands behind the name, or the use of the name.
#[verifier::spinoff_prover]
#[verifier::rlimit(50)]
pub fn parse_named(tokens: &Vec<Token>, pos: usize) -> (r: Result<(Expr, usize), CompErr>)
    requires
        pos < tokens@.len(),
        tokens@[pos as int].tok is Id,
    ensures
        r matches Ok((e, _)) ==> shaped(e) && rank(e) == 0,
        r matches Err(e) ==> e is Parse,
        r is Ok <==> atom_end(kinds(tokens@), pos as int).is_some(),
        r matches Ok((_, next)) ==> atom_end(kinds(tokens@), pos as int) == Some(next as int),
        r matches Ok((e, next)) ==> pos < next <= tokens@.len() && spelled(e) == toks(
            tokens@,
        ).subrange(pos as int, next as int),
{
    let ghost all = toks(tokens@);
    let ghost k = kinds(tokens@);
    let at = tokens[pos].offset;
    let n = tokens.len();
    assert(k[pos as int] == tokens@[pos as int].tok@);
    let name = match &tokens[pos].tok {
        Tok::Id(name) => name.clone(),
        _ => {
            return Err(unexpected(tokens, pos, "A name is expected"));
        },
    };
    let call = n - pos > 1 && match &tokens[pos + 1].tok {
        Tok::Call => true,
        _ => false,
    };
    proof {
        if pos + 1 < n {
            assert(k[pos + 1] == tokens@[pos + 1].tok@);
        }
    }
    if call {
        match parse_samples(tokens, pos + 2) {
            Ok((samples, next)) => {
                let e = Expr::Call(at, name, samples);
                proof {
                    assert(all[pos as int] == Tok::Id(name));
                    assert(all[pos + 1] == Tok::Call);
                    assert(all[next as int] == Tok::Close);
                    assert(spelled(e) =~= all.subrange(pos as int, next + 1));
                }
                Ok((e, next + 1))
            },
            Err(e) => Err(e),
        }
    } else {
        let e = Expr::Variable(at, name, false);
        assert(spelled(e) =~= all.subrange(pos as int, pos + 1));
        Ok((e, pos + 1))
    }
}

/// Reads an expression in parentheses, of which the first stands at `pos`.
#[verifier::spinoff_prover]
#[verifier::rlimit(50)]
pub fn parse_group(tokens: &Vec<Token>, pos: usize) -> (r: Result<(Expr, usize), CompErr>)
    requires
        pos < tokens@.len(),
        tokens@[pos as int].tok is Open,
    ensures
        r matches Ok((e, _)) ==> shaped(e) && rank(e) == 0,
        r matches Err(e) ==> e is Parse,
        r is Ok <==> atom_end(kinds(tokens@), pos as int).is_some(),
        r matches Ok((_, next)) ==> atom_end(kinds(tokens@), pos as int) == Some(next as int),
        r matches Ok((e, next)) ==> pos < next <= tokens@.len() && spelled(e) == toks(
            tokens@,
        ).subrange(pos as int, next as int),
    decreases tokens@.len() - pos, 0nat,
{
    let ghost all = toks(tokens@);
    let ghost k = kinds(tokens@);
    let n = tokens.len();
    assert(k[pos as int] == tokens@[pos as int].tok@);
    match parse_union(tokens, pos + 1) {
        Ok((inner, next)) => {
            if close_at(tokens, next) {
                let e = Expr::Group(Box::new(inner));
                proof {
                    assert(all[pos as int] == Tok::Open);
                    assert(all[next as int] == Tok::Close);
                    assert(spelled(e) =~= all.subrange(pos as int, next + 1));
                }
                Ok((e, next + 1))
            } else {
                Err(unexpected(tokens, next, "A closing parenthesis is expected"))
            }
        },
        Err(e) => Err(e),
    }
}

/// Reads an expression that cannot be taken apart without opening it: a
/// literal, an output, a set of symbols, a name, a call, or an expression in
/// parentheses.
#[verifier::spinoff_prover]
#[verifier::rlimit(50)]
pub fn parse_atom(tokens: &Vec<Token>, pos: usize) -> (r: Result<(Expr, usize), CompErr>)
    ensures
        r matches Ok((e, _)) ==> shaped(e) && rank(e) == 0,
        r matches Err(e) ==> e is Parse,
        r is Ok <==> atom_end(kinds(tokens@), pos as int).is_some(),
        r matches Ok((_, next)) ==> atom_end(kinds(tokens@), pos as int) == Some(next as int),
        r matches Ok((e, next)) ==> pos < next <= tokens@.len() && spelled(e) == toks(
            tokens@,
        ).subrange(pos as int, next as int),
    decreases tokens@.len() - pos, 1nat,
{
    if pos >= tokens.len() {
        return Err(unexpected(tokens, pos, "An expression is expected"));
    }
    let ghost all = toks(tokens@);
    let ghost k = kinds(tokens@);
    let at = tokens[pos].offset;
    assert(k[pos as int] == tokens@[pos as int].tok@);
    match &tokens[pos].tok {
        Tok::Literal(s) => {
            let e = Expr::Input(at, s.clone());
            assert(spelled(e) =~= all.subrange(pos as int, pos + 1));
            Ok((e, pos + 1))
        },
        Tok::Bracket(s) => {
            let e = Expr::Bracket(at, s.clone());
            assert(spelled(e) =~= all.subrange(pos as int, pos + 1));
            Ok((e, pos + 1))
        },
        Tok::Codepoints(s) => {
            let e = Expr::Codepoints(at, s.clone());
            assert(spelled(e) =~= all.subrange(pos as int, pos + 1));
            Ok((e, pos + 1))
        },
        Tok::CodepointRange(s) => {
            let e = Expr::CodepointRange(at, s.clone());
            assert(spelled(e) =~= all.subrange(pos as int, pos + 1));
            Ok((e, pos + 1))
        },
        Tok::Colon => parse_output(tokens, pos),
        Tok::Copy => parse_copy(tokens, pos),
        Tok::Id(_) => parse_named(tokens, pos),
        Tok::Open => parse_group(tokens, pos),
        _ => Err(unexpected(tokens, pos, "An expression is expected")),
    }
}

/// Reads an atom with what may stand behind it: a weight, and then one of
/// `*`, `+` and `?`.
#[verifier::spinoff_prover]
#[verifier::rlimit(50)]
pub fn parse_item(tokens: &Vec<Token>, pos: usize) -> (r: Result<(Expr, usize), CompErr>)
    ensures
        r matches Ok((e, _)) ==> shaped(e) && rank(e) <= 2,
        r matches Err(e) ==> e is Parse,
        r is Ok <==> item_end(kinds(tokens@), pos as int).is_some(),
        r matches Ok((_, next)) ==> item_end(kinds(tokens@), pos as int) == Some(next as int),
        r matches Ok((e, next)) ==> pos < next <= tokens@.len() && spelled(e) == toks(
            tokens@,
        ).subrange(pos as int, next as int),
    decreases tokens@.len() - pos, 2nat,
{
    let ghost all = toks(tokens@);
    let n = tokens.len();
    let (atom, behind) = match parse_atom(tokens, pos) {
        Ok(found) => found,
        Err(e) => {
            return Err(e);
        },
    };
    let (weighted, cur) = match weight_at(tokens, behind) {
        Some(w) => {
            let e = Expr::Post(Box::new(atom), w);
            assert(spelled(e) =~= all.subrange(pos as int, behind + 1));
            assert(shaped(e) && rank(e) == 1);
            (e, behind + 1)
        },
        None => (atom, behind),
    };
    assert(shaped(weighted) && rank(weighted) <= 1);
    if cur >= tokens.len() {
        return Ok((weighted, cur));
    }
    let at = tokens[cur].offset;
    match &tokens[cur].tok {
        Tok::Star => {
            let e = Expr::Star(at, Box::new(weighted));
            assert(spelled(e) =~= all.subrange(pos as int, cur + 1));
            assert(shaped(e) && rank(e) == 2);
            Ok((e, cur + 1))
        },
        Tok::Plus => {
            let e = Expr::Plus(at, Box::new(weighted));
            assert(spelled(e) =~= all.subrange(pos as int, cur + 1));
            assert(shaped(e) && rank(e) == 2);
            Ok((e, cur + 1))
        },
        Tok::Question => {
            let e = Expr::Optional(at, Box::new(weighted));
            assert(spelled(e) =~= all.subrange(pos as int, cur + 1));
            assert(shaped(e) && rank(e) == 2);
            Ok((e, cur + 1))
        },
        _ => Ok((weighted, cur)),
    }
}

/// Reads items that stand one after the other, up to the place where no
/// item begins.
#[verifier::spinoff_prover]
#[verifier::rlimit(50)]
pub fn parse_concat(tokens: &Vec<Token>, pos: usize) -> (r: Result<(Expr, usize), CompErr>)
    ensures
        r matches Ok((e, _)) ==> shaped(e) && rank(e) <= 3,
        r matches Err(e) ==> e is Parse,
        r is Ok <==> concat_end(kinds(tokens@), pos as int).is_some(),
        r matches Ok((_, next)) ==> concat_end(kinds(tokens@), pos as int) == Some(next as int),
        r matches Ok((e, next)) ==> pos < next <= tokens@.len() && spelled(e) == toks(
            tokens@,
        ).subrange(pos as int, next as int),
    decreases tokens@.len() - pos, 3nat,
{
    let ghost all = toks(tokens@);
    let (first, behind) = match parse_item(tokens, pos) {
        Ok(found) => found,
        Err(e) => {
            return Err(e);
        },
    };
    let mut done = first;
    let mut cur = behind;
    while item_at(tokens, cur)
        invariant
            pos < cur <= tokens@.len(),
            all == toks(tokens@),
            concat_end(kinds(tokens@), pos as int) == more_items_end(kinds(tokens@), cur as int),
            shaped(done) && rank(done) <= 3,
            spelled(done) == all.subrange(pos as int, cur as int),
        decreases tokens@.len() - cur,
    {
        match parse_item(tokens, cur) {
            Ok((item, next)) => {
                let e = Expr::Concat(Box::new(done), Box::new(item));
                assert(spelled(e) =~= all.subrange(pos as int, next as int));
                done = e;
                cur = next;
            },
            Err(e) => {
                return Err(e);
            },
        }
    }
    Ok((done, cur))
}

/// Reads a concatenation, behind a weight or without one.
#[verifier::spinoff_prover]
#[verifier::rlimit(50)]
pub fn parse_weighted(tokens: &Vec<Token>, pos: usize) -> (r: Result<(Expr, usize), CompErr>)
    ensures
        r matches Ok((e, _)) ==> shaped(e) && rank(e) <= 4,
        r matches Err(e) ==> e is Parse,
        r is Ok <==> weighted_end(kinds(tokens@), pos as int).is_some(),
        r matches Ok((_, next)) ==> weighted_end(kinds(tokens@), pos as int) == Some(next as int),
        r matches Ok((e, next)) ==> pos < next <= tokens@.len() && spelled(e) == toks(
            tokens@,
        ).subrange(pos as int, next as int),
    decreases tokens@.len() - pos, 4nat,
{
    let ghost all = toks(tokens@);
    let n = tokens.len();
    match weight_at(tokens, pos) {
        Some(w) => match parse_concat(tokens, pos + 1) {
            Ok((inner, next)) => {
                let e = Expr::Pre(w, Box::new(inner));
                assert(spelled(e) =~= all.subrange(pos as int, next as int));
                Ok((e, next))
            },
            Err(e) => Err(e),
        },
        None => parse_concat(tokens, pos),
    }
}

/// Reads concatenations with bars between them.
#[verifier::spinoff_prover]
#[verifier::rlimit(50)]
pub fn parse_union(tokens: &Vec<Token>, pos: usize) -> (r: Result<(Expr, usize), CompErr>)
    ensures
        r matches Ok((e, _)) ==> shaped(e) && rank(e) <= 5,
        r matches Err(e) ==> e is Parse,
        r is Ok <==> union_end(kinds(tokens@), pos as int).is_some(),
        r matches Ok((_, next)) ==> union_end(kinds(tokens@), pos as int) == Some(next as int),
        r matches Ok((e, next)) ==> pos < next <= tokens@.len() && spelled(e) == toks(
            tokens@,
        ).subrange(pos as int, next as int),
    decreases tokens@.len() - pos, 5nat,
{
    let ghost all = toks(tokens@);
    let (first, behind) = match parse_weighted(tokens, pos) {
        Ok(found) => found,
        Err(e) => {
            return Err(e);
        },
    };
    let mut done = first;
    let mut cur = behind;
    loop
        invariant
            pos < cur <= tokens@.len(),
            all == toks(tokens@),
            union_end(kinds(tokens@), pos as int) == more_unions_end(kinds(tokens@), cur as int),
            shaped(done) && rank(done) <= 5,
            spelled(done) == all.subrange(pos as int, cur as int),
        decreases tokens@.len() - cur,
    {
        let bar = cur < tokens.len() && match &tokens[cur].tok {
            Tok::Bar => true,
            _ => false,
        };
        if !bar {
            return Ok((done, cur));
        }
        let at = tokens[cur].offset;
        match parse_weighted(tokens, cur + 1) {
            Ok((rhs, next)) => {
                let e = Expr::Union(at, Box::new(done), Box::new(rhs));
                proof {
                    assert(all[cur as int] == Tok::Bar);
                    assert(spelled(e) =~= all.subrange(pos as int, next as int));
                }
                done = e;
                cur = next;
            },
            Err(e) => {
                return Err(e);
            },
        }
    }
}


/// Reads a pipeline expression in parentheses behind `@`, which stands at
/// `pos`.
#[verifier::spinoff_prover]
#[verifier::rlimit(50)]
pub fn parse_pipe_group(tokens: &Vec<Token>, pos: usize) -> (r: Result<(Pipe, usize), CompErr>)
    requires
        pos + 1 < tokens@.len(),
        tokens@[pos as int].tok is At,
        tokens@[pos + 1].tok is Open,
    ensures
        r matches Ok((p, _)) ==> pipe_shaped(p) && pipe_rank(p) == 0,
        r matches Err(e) ==> e is Parse,
        r is Ok <==> stage_end(kinds(tokens@), pos as int).is_some(),
        r matches Ok((_, next)) ==> stage_end(kinds(tokens@), pos as int) == Some(next as int),
        r matches Ok((p, next)) ==> pos < next <= tokens@.len() && spelled_pipe(p) == toks(
            tokens@,
        ).subrange(pos as int, next as int),
    decreases tokens@.len() - pos, 0nat,
{
    let ghost all = toks(tokens@);
    let ghost k = kinds(tokens@);
    let n = tokens.len();
    proof {
        assert(k[pos as int] == tokens@[pos as int].tok@);
        assert(k[pos + 1] == tokens@[pos + 1].tok@);
        assert(k[pos as int] is At);
        assert(k[pos + 1] is Open);
        assert(stage_end(k, pos as int) == match pipe_end(k, pos + 2) {
            Some(n) => if 0 <= n < k.len() && k[n] is Close {
                Some(n + 1)
            } else {
                None
            },
            None => None,
        });
    }
    match parse_pipe(tokens, pos + 2) {
        Ok((inner, next)) => {
            if close_at(tokens, next) {
                let p = Pipe::Group(Box::new(inner));
                proof {
                    assert(pipe_shaped(p) && pipe_rank(p) == 0);
                    assert(all[pos as int] == Tok::At);
                    assert(all[pos + 1] == Tok::Open);
                    assert(all[next as int] == Tok::Close);
                    assert(spelled_pipe(p) =~= all.subrange(pos as int, next + 1));
                }
                Ok((p, next + 1))
            } else {
                Err(unexpected(tokens, next, "A closing parenthesis is expected"))
            }
        },
        Err(e) => Err(e),
    }
}

/// Reads what begins with `@`, which stands at `pos`: the name of a
/// pipeline, or a pipeline expression in parentheses.
#[verifier::spinoff_prover]
#[verifier::rlimit(50)]
pub fn parse_reference(tokens: &Vec<Token>, pos: usize) -> (r: Result<(Pipe, usize), CompErr>)
    requires
        pos < tokens@.len(),
        tokens@[pos as int].tok is At,
    ensures
        r matches Ok((p, _)) ==> pipe_shaped(p) && pipe_rank(p) == 0,
        r matches Err(e) ==> e is Parse,
        r is Ok <==> stage_end(kinds(tokens@), pos as int).is_some(),
        r matches Ok((_, next)) ==> stage_end(kinds(tokens@), pos as int) == Some(next as int),
        r matches Ok((p, next)) ==> pos < next <= tokens@.len() && spelled_pipe(p) == toks(
            tokens@,
        ).subrange(pos as int, next as int),
    decreases tokens@.len() - pos, 1nat,
{
    let ghost all = toks(tokens@);
    let ghost k = kinds(tokens@);
    let at = tokens[pos].offset;
    let n = tokens.len();
    assert(k[pos as int] == tokens@[pos as int].tok@);
    assert(k[pos as int] is At);
    if n - pos < 2 {
        assert(stage_end(k, pos as int).is_none());
        return Err(unexpected(tokens, pos + 1, "A name is expected"));
    }
    assert(k[pos + 1] == tokens@[pos + 1].tok@);
    match &tokens[pos + 1].tok {
        Tok::Id(name) => {
            let p = Pipe::Named(at, name.clone());
            proof {
                assert(k[pos + 1] is Id);
                assert(stage_end(k, pos as int) == Some(pos + 2));
                assert(all[pos as int] == Tok::At);
                assert(all[pos + 1] == Tok::Id(*name));
                assert(spelled_pipe(p) =~= all.subrange(pos as int, pos + 2));
            }
            Ok((p, pos + 2))
        },
        Tok::Open => parse_pipe_group(tokens, pos),
        _ => {
            proof {
                assert(!(k[pos + 1] is Id));
                assert(!(k[pos + 1] is Open));
                assert(stage_end(k, pos as int).is_none());
            }
            Err(unexpected(tokens, pos + 1, "A name is expected"))
        },
    }
}

/// Reads one stage of a pipeline: `@` and a name, a pipeline expression
/// between `@(` and `)`, or a transducer expression.
#[verifier::spinoff_prover]
#[verifier::rlimit(50)]
pub fn parse_stage(tokens: &Vec<Token>, pos: usize) -> (r: Result<(Pipe, usize), CompErr>)
    ensures
        r matches Ok((p, _)) ==> pipe_shaped(p) && pipe_rank(p) == 0,
        r matches Err(e) ==> e is Parse,
        r is Ok <==> stage_end(kinds(tokens@), pos as int).is_some(),
        r matches Ok((_, next)) ==> stage_end(kinds(tokens@), pos as int) == Some(next as int),
        r matches Ok((p, next)) ==> pos < next <= tokens@.len() && spelled_pipe(p) == toks(
            tokens@,
        ).subrange(pos as int, next as int),
    decreases tokens@.len() - pos, 2nat,
{
    if pos >= tokens.len() {
        return Err(unexpected(tokens, pos, "A pipeline is expected"));
    }
    let ghost k = kinds(tokens@);
    let at = tokens[pos].offset;
    assert(k[pos as int] == tokens@[pos as int].tok@);
    let reference = match &tokens[pos].tok {
        Tok::At => true,
        _ => false,
    };
    if reference {
        parse_reference(tokens, pos)
    } else {
        match parse_union(tokens, pos) {
            Ok((e, next)) => Ok((Pipe::Automaton(at, e), next)),
            Err(e) => Err(e),
        }
    }
}

/// Reads stages with semicolons between them.
#[verifier::spinoff_prover]
#[verifier::rlimit(50)]
pub fn parse_stages(tokens: &Vec<Token>, pos: usize) -> (r: Result<(Pipe, usize), CompErr>)
    ensures
        r matches Ok((p, _)) ==> pipe_shaped(p) && pipe_rank(p) <= 1,
        r matches Err(e) ==> e is Parse,
        r is Ok <==> stages_end(kinds(tokens@), pos as int).is_some(),
        r matches Ok((_, next)) ==> stages_end(kinds(tokens@), pos as int) == Some(next as int),
        r matches Ok((p, next)) ==> pos < next <= tokens@.len() && spelled_pipe(p) == toks(
            tokens@,
        ).subrange(pos as int, next as int),
    decreases tokens@.len() - pos, 3nat,
{
    let ghost all = toks(tokens@);
    let (first, behind) = match parse_stage(tokens, pos) {
        Ok(found) => found,
        Err(e) => {
            return Err(e);
        },
    };
    let mut done = first;
    let mut cur = behind;
    loop
        invariant
            pos < cur <= tokens@.len(),
            all == toks(tokens@),
            stages_end(kinds(tokens@), pos as int) == more_stages_end(kinds(tokens@), cur as int),
            pipe_shaped(done) && pipe_rank(done) <= 1,
            spelled_pipe(done) == all.subrange(pos as int, cur as int),
        decreases tokens@.len() - cur,
    {
        let semicolon = cur < tokens.len() && match &tokens[cur].tok {
            Tok::Semicolon => true,
            _ => false,
        };
        if !semicolon {
            return Ok((done, cur));
        }
        match parse_stage(tokens, cur + 1) {
            Ok((rhs, next)) => {
                let p = Pipe::Compose(Box::new(done), Box::new(rhs));
                proof {
                    assert(all[cur as int] == Tok::Semicolon);
                    assert(spelled_pipe(p) =~= all.subrange(pos as int, next as int));
                }
                done = p;
                cur = next;
            },
            Err(e) => {
                return Err(e);
            },
        }
    }
}

/// Reads chains of stages with `||` between them.
#[verifier::spinoff_prover]
#[verifier::rlimit(50)]
pub fn parse_pipe(tokens: &Vec<Token>, pos: usize) -> (r: Result<(Pipe, usize), CompErr>)
    ensures
        r matches Ok((p, _)) ==> pipe_shaped(p) && pipe_rank(p) <= 2,
        r matches Err(e) ==> e is Parse,
        r is Ok <==> pipe_end(kinds(tokens@), pos as int).is_some(),
        r matches Ok((_, next)) ==> pipe_end(kinds(tokens@), pos as int) == Some(next as int),
        r matches Ok((p, next)) ==> pos < next <= tokens@.len() && spelled_pipe(p) == toks(
            tokens@,
        ).subrange(pos as int, next as int),
    decreases tokens@.len() - pos, 4nat,
{
    let ghost all = toks(tokens@);
    let (first, behind) = match parse_stages(tokens, pos) {
        Ok(found) => found,
        Err(e) => {
            return Err(e);
        },
    };
    let mut done = first;
    let mut cur = behind;
    loop
        invariant
            pos < cur <= tokens@.len(),
            all == toks(tokens@),
            pipe_end(kinds(tokens@), pos as int) == more_pipes_end(kinds(tokens@), cur as int),
            pipe_shaped(done) && pipe_rank(done) <= 2,
            spelled_pipe(done) == all.subrange(pos as int, cur as int),
        decreases tokens@.len() - cur,
    {
        let other = cur < tokens.len() && match &tokens[cur].tok {
            Tok::Alternative => true,
            _ => false,
        };
        if !other {
            return Ok((done, cur));
        }
        match parse_stages(tokens, cur + 1) {
            Ok((rhs, next)) => {
                let p = Pipe::Alternative(Box::new(done), Box::new(rhs));
                proof {
                    assert(all[cur as int] == Tok::Alternative);
                    assert(spelled_pipe(p) =~= all.subrange(pos as int, next as int));
                }
                done = p;
                cur = next;
            },
            Err(e) => {
                return Err(e);
            },
        }
    }
}

/// The name at the place `pos`, if a name stands there and `=` behind it.
pub fn defined_name(tokens: &Vec<Token>, pos: usize) -> (r: Result<String, CompErr>)
    ensures
        r matches Err(e) ==> e is Parse,
        r is Ok <==> defines(kinds(tokens@), pos as int),
        r matches Ok(name) ==> pos + 1 < tokens@.len() && tokens@[pos as int].tok == Tok::Id(name)
            && tokens@[pos + 1].tok is Assign,
{
    if pos >= tokens.len() {
        return Err(unexpected(tokens, pos, "A name is expected"));
    }
    match &tokens[pos].tok {
        Tok::Id(name) => {
            if assign_at(tokens, pos + 1) {
                Ok(name.clone())
            } else {
                Err(unexpected(tokens, pos + 1, "An equals sign is expected"))
            }
        },
        _ => Err(unexpected(tokens, pos, "A name is expected")),
    }
}

/// Reads the statement that binds a pipeline: `@`, which stands at `pos`, a
/// name, `=` and a pipeline expression.
#[verifier::spinoff_prover]
#[verifier::rlimit(50)]
pub fn parse_chain(tokens: &Vec<Token>, pos: usize) -> (r: Result<(Statement, usize), CompErr>)
    requires
        pos < tokens@.len(),
        tokens@[pos as int].tok is At,
    ensures
        r matches Ok((s, _)) ==> statement_shaped(s),
        r matches Err(e) ==> e is Parse,
        r is Ok <==> statement_end(kinds(tokens@), pos as int).is_some(),
        r matches Ok((_, next)) ==> statement_end(kinds(tokens@), pos as int) == Some(next as int),
        r matches Ok((s, next)) ==> pos < next <= tokens@.len() && spelled_statement(s) == toks(
            tokens@,
        ).subrange(pos as int, next as int),
{
    let ghost all = toks(tokens@);
    let ghost k = kinds(tokens@);
    let offset = tokens[pos].offset;
    let n = tokens.len();
    assert(k[pos as int] == tokens@[pos as int].tok@);
    let name = match defined_name(tokens, pos + 1) {
        Ok(name) => name,
        Err(e) => {
            assert(statement_end(k, pos as int).is_none());
            return Err(e);
        },
    };
    assert(defines(k, pos + 1));
    assert(statement_end(k, pos as int) == pipe_end(k, pos + 3));
    match parse_pipe(tokens, pos + 3) {
        Ok((body, next)) => {
            let s = Statement::Chain { offset, name, stages: body };
            proof {
                assert(all[pos as int] == Tok::At);
                assert(all[pos + 1] == Tok::Id(name));
                assert(all[pos + 2] == Tok::Assign);
                assert(spelled_statement(s) =~= all.subrange(pos as int, next as int));
            }
            Ok((s, next))
        },
        Err(e) => Err(e),
    }
}

/// Looks for `nonfunc` and `!!` at the beginning of a definition; see
/// `definition_name`.
#[verifier::spinoff_prover]
#[verifier::rlimit(50)]
pub fn definition_start(tokens: &Vec<Token>, pos: usize) -> (r: (bool, bool, usize))
    requires
        pos < tokens@.len(),
    ensures
        (r.0, r.1, r.2 as int) == definition_name(kinds(tokens@), pos as int),
        pos <= r.2 <= pos + 2,
        r.2 <= tokens@.len(),
        r.0 == (tokens@[pos as int].tok is Nonfunc),
        r.1 ==> r.2 >= 1 && tokens@[r.2 - 1].tok is Copy,
        r.2 == pos + (if r.0 { 1int } else { 0int }) + (if r.1 { 1int } else { 0int }),
{
    let ghost k = kinds(tokens@);
    let n = tokens.len();
    assert(k[pos as int] == tokens@[pos as int].tok@);
    let nonfunc = match &tokens[pos].tok {
        Tok::Nonfunc => true,
        _ => false,
    };
    let second: usize = if nonfunc {
        pos + 1
    } else {
        pos
    };
    proof {
        if second < n {
            assert(k[second as int] == tokens@[second as int].tok@);
        }
    }
    let always_copy = second < n && match &tokens[second].tok {
        Tok::Copy => true,
        _ => false,
    };
    let third: usize = if always_copy {
        second + 1
    } else {
        second
    };
    (nonfunc, always_copy, third)
}

/// A definition is written by `nonfunc` and `!!`, where it has them, its
/// name, `=`, and the tokens of its expression.
pub proof fn lemma_spelled_definition(all: Seq<Tok>, s: Statement, pos: int, third: int, next: int)
    requires
        s is Define,
        0 <= pos <= third,
        third + 2 <= next <= all.len(),
        third == pos + (if s->nonfunc { 1int } else { 0int }) + (if s->always_copy { 1int } else { 0int }),
        s->nonfunc ==> all[pos] == Tok::Nonfunc,
        s->always_copy ==> all[third - 1] == Tok::Copy,
        all[third] == Tok::Id(s->Define_name),
        all[third + 1] == Tok::Assign,
        spelled(s->Define_body) == all.subrange(third + 2, next),
    ensures
        spelled_statement(s) == all.subrange(pos, next),
{
    let head = (if s->nonfunc {
        seq![Tok::Nonfunc]
    } else {
        Seq::empty()
    }) + (if s->always_copy {
        seq![Tok::Copy]
    } else {
        Seq::empty()
    });
    assert(head =~= all.subrange(pos, third));
    assert(spelled_statement(s) =~= head + seq![Tok::Id(s->Define_name), Tok::Assign] + spelled(
        s->Define_body,
    ));
    assert(head + seq![Tok::Id(s->Define_name), Tok::Assign] + all.subrange(third + 2, next)
        =~= all.subrange(pos, next));
}

/// Reads the statement that binds a transducer: a name, `=` and a
/// transducer expression, where `!!` may stand before the name and
/// `nonfunc` before both. The first token, which stands at `pos`, is not
/// `@`.
#[verifier::spinoff_prover]
#[verifier::rlimit(50)]
pub fn parse_definition(tokens: &Vec<Token>, pos: usize) -> (r: Result<
    (Statement, usize),
    CompErr,
>)
    requires
        pos < tokens@.len(),
        !(tokens@[pos as int].tok is At),
    ensures
        r matches Ok((s, _)) ==> statement_shaped(s),
        r matches Err(e) ==> e is Parse,
        r is Ok <==> statement_end(kinds(tokens@), pos as int).is_some(),
        r matches Ok((_, next)) ==> statement_end(kinds(tokens@), pos as int) == Some(next as int),
        r matches Ok((s, next)) ==> pos < next <= tokens@.len() && spelled_statement(s) == toks(
            tokens@,
        ).subrange(pos as int, next as int),
{
    let ghost all = toks(tokens@);
    let ghost k = kinds(tokens@);
    let offset = tokens[pos].offset;
    let n = tokens.len();
    let (nonfunc, always_copy, third) = definition_start(tokens, pos);
    proof {
        assert(k[pos as int] == tokens@[pos as int].tok@);
        assert(!(k[pos as int] is At));
        assert(definition_name(k, pos as int).2 == third);
        assert(statement_end(k, pos as int) == if defines(k, third as int) {
            union_end(k, third + 2)
        } else {
            None
        });
    }
    let name = match defined_name(tokens, third) {
        Ok(name) => name,
        Err(e) => {
            return Err(e);
        },
    };
    match parse_union(tokens, third + 2) {
        Ok((body, next)) => {
            let s = Statement::Define { offset, name, always_copy, nonfunc, body };
            proof {
                lemma_spelled_definition(all, s, pos as int, third as int, next as int);
            }
            Ok((s, next))
        },
        Err(e) => Err(e),
    }
}

/// Reads one statement.
#[verifier::spinoff_prover]
#[verifier::rlimit(50)]
pub fn parse_statement(tokens: &Vec<Token>, pos: usize) -> (r: Result<(Statement, usize), CompErr>)
    ensures
        r matches Ok((s, _)) ==> statement_shaped(s),
        r matches Err(e) ==> e is Parse,
        r is Ok <==> statement_end(kinds(tokens@), pos as int).is_some(),
        r matches Ok((_, next)) ==> statement_end(kinds(tokens@), pos as int) == Some(next as int),
        r matches Ok((s, next)) ==> pos < next <= tokens@.len() && spelled_statement(s) == toks(
            tokens@,
        ).subrange(pos as int, next as int),
{
    if pos >= tokens.len() {
        return Err(unexpected(tokens, pos, "A statement is expected"));
    }
    let ghost k = kinds(tokens@);
    assert(k[pos as int] == tokens@[pos as int].tok@);
    let is_chain = match &tokens[pos].tok {
        Tok::At => true,
        _ => false,
    };
    if is_chain {
        parse_chain(tokens, pos)
    } else {
        parse_definition(tokens, pos)
    }
}

/// Reads statements up to the end of the tokens. The statements are written
/// by exactly these tokens, in this order.
#[verifier::spinoff_prover]
#[verifier::rlimit(50)]
pub fn parse_program(tokens: &Vec<Token>) -> (r: Result<Vec<Statement>, CompErr>)
    ensures
        r matches Ok(statements) ==> forall|i: int|
            0 <= i < statements@.len() ==> statement_shaped(#[trigger] statements@[i]),
        r matches Err(e) ==> e is Parse,
        r is Ok <==> statements_from(kinds(tokens@), 0),
        r matches Ok(statements) ==> spelled_program(statements@, statements@.len()) == toks(
            tokens@,
        ),
{
    let ghost all = toks(tokens@);
    let mut statements: Vec<Statement> = Vec::new();
    let mut cur: usize = 0;
    assert(spelled_program(statements@, 0) =~= all.subrange(0, 0));
    while cur < tokens.len()
        invariant
            cur <= tokens@.len(),
            all == toks(tokens@),
            statements_from(kinds(tokens@), 0) == statements_from(kinds(tokens@), cur as int),
            forall|i: int| 0 <= i < statements@.len() ==> statement_shaped(#[trigger] statements@[i]),
            spelled_program(statements@, statements@.len()) == all.subrange(0, cur as int),
        decreases tokens@.len() - cur,
    {
        match parse_statement(tokens, cur) {
            Ok((s, next)) => {
                let ghost before = statements@;
                statements.push(s);
                proof {
                    let n = statements@.len();
                    lemma_spelled_program_prefix(statements@, before, (n - 1) as nat);
                    assert(spelled_program(statements@, n) =~= all.subrange(0, next as int));
                }
                cur = next;
            },
            Err(e) => {
                return Err(e);
            },
        }
    }
    assert(all.subrange(0, cur as int) =~= all);
    Ok(statements)
}

/// How the first statements are written does not depend on the statements
/// behind them.
pub proof fn lemma_spelled_program_prefix(a: Seq<Statement>, b: Seq<Statement>, n: nat)
    requires
        n <= a.len(),
        n <= b.len(),
        forall|i: int| 0 <= i < n ==> a[i] == b[i],
    ensures
        spelled_program(a, n) == spelled_program(b, n),
    decreases n,
{
    if n > 0 {
        lemma_spelled_program_prefix(a, b, (n - 1) as nat);
    }
}

/// The tokens as they are.
pub open spec fn written(tokens: Seq<Tok>) -> Seq<TokView> {
    tokens.map_values(|t: Tok| t@)
}

/// The statements of a source text. A text whose tokens cannot be read is
/// refused at the place where the first of them stands. A text whose
/// tokens are no statements, one after the other, is refused too; see
/// `statements_from`. Otherwise the statements are returned: they are
/// written by exactly the tokens of the text, see `tokens_from`, and built
/// as the language binds, see `shaped`.
pub fn parse(source: &str) -> (r: Result<Vec<Statement>, CompErr>)
    ensures
        r matches Err(e) ==> e is Parse,
        match tokens_from(symbols_of(source@), 0) {
            Err(at) => r matches Err(CompErr::Parse(p, _)) && p == V::Position(at as usize),
            Ok(v) => (r is Ok <==> statements_from(v.map_values(|x: (TokView, usize)| x.0), 0))
                && (r matches Ok(statements) ==> written(
                spelled_program(statements@, statements@.len()),
            ) == v.map_values(|x: (TokView, usize)| x.0)),
        },
        r matches Ok(statements) ==> forall|i: int|
            0 <= i < statements@.len() ==> statement_shaped(#[trigger] statements@[i]),
{
    match lex(source) {
        Ok(tokens) => {
            let r = parse_program(&tokens);
            proof {
                let v = tokens_view(tokens@);
                assert(written(toks(tokens@)) =~= v.map_values(|x: (TokView, usize)| x.0));
                assert(kinds(tokens@) =~= v.map_values(|x: (TokView, usize)| x.0));
            }
            r
        },
        Err(e) => Err(e),
    }
}

} // verus!
