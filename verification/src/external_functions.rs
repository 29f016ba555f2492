use crate::compilation_error::CompErr;
use crate::func_arg::{FuncArg, FuncArgs, Informant};
use crate::g::G;
use crate::int_embedding::{
    first_occurrences, informant_symbols, lemma_first_occurrences, lemma_informant_symbols,
    IntEmbedding, I,
};
use crate::int_seq::{IntSeq, A, REFLECT};
use crate::learn::ostia_compress::{
    all_text, ascii_outputs, compiled, conflict_at, merged, sample_word, taught, InferenceFault,
    Inferred, PTT,
};
use crate::v::V;
use vstd::prelude::*;

verus! {

/// The alphabet of the inputs of the samples.
pub open spec fn alphabet_of(informant: Seq<(IntSeq, Option<IntSeq>)>) -> Seq<A> {
    first_occurrences(informant_symbols(informant, informant.len()))
}

/// The bytes as numbers.
pub fn widen(bytes: &[u8]) -> (r: Vec<u32>)
    ensures
        r@ == bytes@.map_values(|b: u8| b as u32),
{
    let mut out: Vec<u32> = Vec::with_capacity(bytes.len());
    let mut i: usize = 0;
    while i < bytes.len()
        invariant
            i <= bytes.len(),
            out@ == bytes@.map_values(|b: u8| b as u32).subrange(0, i as int),
        decreases bytes.len() - i,
    {
        out.push(bytes[i] as u32);
        assert(out@ =~= bytes@.map_values(|b: u8| b as u32).subrange(0, i + 1));
        i = i + 1;
    }
    assert(bytes@.map_values(|b: u8| b as u32).subrange(0, i as int) =~= bytes@.map_values(
        |b: u8| b as u32,
    ));
    out
}

/// Whether `x` is what is learnt from the samples: a transducer over the
/// alphabet of their inputs that gives for every word what the samples
/// teach, the states that are left of it, which begin with the root and
/// hold with every state the states to which its edges lead, and the graph
/// that was compiled from them; see `compiled`.
pub open spec fn learnt(informant: Seq<(IntSeq, Option<IntSeq>)>, x: Inferred, pos: V) -> bool {
    &&& !alphabet_of(informant).contains(REFLECT)
    &&& merged(informant, alphabet_of(informant), x.ptt, x.red@)
    &&& all_text(x.ptt.states@, x.red@)
    &&& x.g@ == compiled(x.ptt.states@, alphabet_of(informant), x.red@, pos)
    &&& x.g@.wf()
}

/// Whether `e` is the error for samples from which no transducer is learnt,
/// and whether there is this error for them. An input that holds the
/// reflection marker is refused before anything else. Otherwise the first
/// sample that gives its input another output than a sample before it is
/// reported, with its input, the output that the samples before it teach and
/// its own. Otherwise an output of the states that merging leaves is no
/// string, see `merged`, which does not happen where the outputs of the
/// samples are written with bytes below 0x80 only.
pub open spec fn not_learnt(informant: Seq<(IntSeq, Option<IntSeq>)>, pos: V, e: CompErr) -> bool {
    let alphabet = alphabet_of(informant);
    match e {
        CompErr::Parse(p, m) => p == pos && if alphabet.contains(REFLECT) {
            m@ == "Null character not allowed on input"@
        } else {
            m@ == "Output is not a valid UTF-8 string"@ && !ascii_outputs(informant) && exists|
                ptt: PTT,
                red: Seq<usize>,
            | #[trigger] merged(informant, alphabet, ptt, red) && !all_text(ptt.states@, red)
        },
        CompErr::AmbiguousDictionary(p, input, first, second) => {
            &&& p == pos
            &&& !alphabet.contains(REFLECT)
            &&& exists|i: int|
                {
                    &&& #[trigger] conflict_at(informant, alphabet, i)
                    &&& forall|j: int| 0 <= j < i ==> !conflict_at(informant, alphabet, j)
                    &&& input@ == informant[i].0.symbols()
                    &&& taught(informant, alphabet, i as nat, sample_word(alphabet, informant[i]))
                        matches Some(z) && first@ == z.map_values(|b: u8| b as u32)
                    &&& second@ == vstd::utf8::encode_utf8(informant[i].1.unwrap()@).map_values(
                        |b: u8| b as u32,
                    )
                }
        },
        _ => false,
    }
}

/// Whether `r` is the outcome of learning a graph from the samples: the
/// graph of what is learnt from them, see `learnt`, or the error for them,
/// see `not_learnt`. A graph is owed where no input holds the reflection
/// marker, no sample gives its input another output than a sample before
/// it, and the outputs are written with bytes below 0x80 only.
pub open spec fn learning(
    informant: Seq<(IntSeq, Option<IntSeq>)>,
    pos: V,
    r: Result<G, CompErr>,
) -> bool {
    match r {
        Ok(g) => exists|x: Inferred| #[trigger] learnt(informant, x, pos) && x.g@ == g@,
        Err(e) => not_learnt(informant, pos, e),
    }
}

/// Infers a transducer from the samples; see `PTT::infer`. The alphabet is
/// that of the inputs of the samples. Where there is no transducer, the error
/// says why; see `not_learnt`.
pub fn infer_from_informant(pos: V, informant: &Informant) -> (r: Result<Inferred, CompErr>)
    ensures
        match r {
            Ok(x) => learnt(informant@, x, pos),
            Err(e) => not_learnt(informant@, pos, e),
        },
{
    let alphabet = IntEmbedding::for_informant(informant);
    let ghost symbols = alphabet@;
    if alphabet.try_embed(REFLECT).is_some() {
        return Err(CompErr::Parse(pos, "Null character not allowed on input".to_owned()));
    }
    proof {
        assert forall|d: int| 0 <= d < symbols.len() implies #[trigger] symbols[d] > REFLECT by {
            if symbols[d] == REFLECT {
                assert(symbols.contains(REFLECT));
            }
        }
        assert forall|i: int, k: int|
            0 <= i < informant@.len() && 0 <= k
                < informant@[i].0.symbols().len() implies symbols.contains(
            #[trigger] informant@[i].0.symbols()[k],
        ) by {
            lemma_informant_symbols(informant@, informant@.len(), i, k);
            lemma_first_occurrences(
                informant_symbols(informant@, informant@.len()),
                informant@[i].0.symbols()[k],
            );
        }
    }
    match PTT::infer(pos, informant, alphabet) {
        Ok(x) => {
            proof {
                assert(x.ptt.alphabet@ == alphabet_of(informant@));
            }
            Ok(x)
        },
        Err(InferenceFault::Conflict(i, z)) => {
            let input = informant[i].0.to_symbols();
            let first = widen(z.as_slice());
            let second = match &informant[i].1 {
                Some(out) => widen(out.as_bytes()),
                None => Vec::new(),
            };
            Err(CompErr::AmbiguousDictionary(pos, input, first, second))
        },
        Err(InferenceFault::NotText) => Err(
            CompErr::Parse(pos, "Output is not a valid UTF-8 string".to_owned()),
        ),
    }
}

/// The external function `ostiaCompress`: learns a graph from the one
/// argument, which must be a list of samples; see `learning`.
pub fn ostia_compress(pos: V, args: FuncArgs) -> (r: Result<G, CompErr>)
    ensures
        !(args@.len() == 1 && args@[0] is Informant) ==> (r matches Err(
            CompErr::IncorrectFunctionArguments(p, m),
        ) && p == pos && m@ == "Expected a single informant argument"@),
        args@.len() == 1 && args@[0] is Informant ==> learning(args@[0]->Informant_0@, pos, r),
{
    if args.len() == 1 {
        if let FuncArg::Informant(i) = &args[0] {
            return match infer_from_informant(pos, i) {
                Ok(x) => {
                    let Inferred { ptt, red, g } = x;
                    proof {
                        let witness = Inferred { ptt, red, g };
                        assert(learnt(i@, witness, pos));
                    }
                    Ok(g)
                },
                Err(e) => Err(e),
            };
        }
    }
    Err(
        CompErr::IncorrectFunctionArguments(
            pos,
            "Expected a single informant argument".to_owned(),
        ),
    )
}

} // verus!
