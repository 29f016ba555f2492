use crate::compilation_error::CompErr;
use crate::external_functions::{infer_from_informant, learning, learnt};
use crate::func_arg::{FuncArg, FuncArgs, Informant};
use crate::g::G;
use crate::int_embedding::IntEmbedding;
use crate::int_seq::{symbols_of, IntSeq, A};
use crate::learn::ostia_compress::Inferred;
use crate::parser_utils::symbols_of_str;
use crate::v::V;
use vstd::prelude::*;

verus! {

/// The place of the first tab among the first `n` symbols, or `n` if there is
/// none.
pub open spec fn first_tab(s: Seq<A>, n: int) -> int
    decreases n,
{
    if n <= 0 {
        0
    } else {
        let before = first_tab(s, n - 1);
        if before < n - 1 {
            before
        } else if s[n - 1] == 0x09 {
            n - 1
        } else {
            n
        }
    }
}

/// The sample that a line of a dataset gives: the text before the first tab is
/// the input and the text behind it the output; a line without a tab is an
/// input without an output.
pub open spec fn line_sample(s: Seq<A>) -> (Seq<A>, Option<Seq<A>>) {
    let t = first_tab(s, s.len() as int);
    if t < s.len() {
        (s.subrange(0, t), Some(s.subrange(t + 1, s.len() as int)))
    } else {
        (s, None)
    }
}

/// A tab that was found first stays the first.
pub proof fn lemma_first_tab(s: Seq<A>, t: int, n: int)
    requires
        0 <= t <= n <= s.len(),
        first_tab(s, t) == t,
        t < s.len() ==> s[t] == 0x09,
        t == s.len() || n > t,
    ensures
        first_tab(s, n) == t,
    decreases n - t,
{
    if n > t {
        if n - 1 > t {
            lemma_first_tab(s, t, n - 1);
        }
    }
}

/// Reads one line of a dataset; see `line_sample`.
pub fn parse_line(line: String) -> (r: (IntSeq, Option<IntSeq>))
    ensures
        r.0.symbols() == line_sample(symbols_of(line@)).0,
        match line_sample(symbols_of(line@)).1 {
            Some(out) => r.1.is_some() && r.1.unwrap().symbols() == out,
            None => r.1.is_none(),
        },
{
    let symbols = symbols_of_str(line.as_str());
    let n = symbols.len();
    let mut t: usize = 0;
    while t < n && symbols[t] != 0x09
        invariant
            t <= n,
            n == symbols@.len(),
            first_tab(symbols@, t as int) == t,
        decreases n - t,
    {
        t = t + 1;
    }
    proof {
        lemma_first_tab(symbols@, t as int, n as int);
    }
    if t < n {
        let left = vstd::slice::slice_subrange(symbols.as_slice(), 0, t);
        let right = vstd::slice::slice_subrange(symbols.as_slice(), t + 1, n);
        let input = IntSeq::from_symbols(left);
        let output = IntSeq::from_symbols(right);
        (input.unwrap(), Some(output.unwrap()))
    } else {
        let input = IntSeq::from_symbols(symbols.as_slice());
        (input.unwrap(), None)
    }
}

/// Whether the samples are those of the lines, one of each line; see
/// `line_sample`.
pub open spec fn read_from(lines: Seq<String>, informant: Seq<(IntSeq, Option<IntSeq>)>) -> bool {
    &&& informant.len() == lines.len()
    &&& forall|i: int|
        0 <= i < informant.len() ==> (#[trigger] informant[i]).0.symbols() == line_sample(
            symbols_of(lines[i]@),
        ).0 && match line_sample(symbols_of(lines[i]@)).1 {
            Some(out) => informant[i].1.is_some() && informant[i].1.unwrap().symbols() == out,
            None => informant[i].1.is_none(),
        }
}

/// Reads the lines of a dataset, one sample from each.
pub fn iter_lines(lines: Vec<String>) -> (r: Informant)
    ensures
        read_from(lines@, r@),
{
    let mut informant: Informant = Vec::with_capacity(lines.len());
    let mut i: usize = 0;
    while i < lines.len()
        invariant
            i <= lines.len(),
            informant@.len() == i,
            forall|k: int|
                0 <= k < i ==> (#[trigger] informant@[k]).0.symbols() == line_sample(
                    symbols_of(lines@[k]@),
                ).0 && match line_sample(symbols_of(lines@[k]@)).1 {
                    Some(out) => informant@[k].1.is_some() && informant@[k].1.unwrap().symbols()
                        == out,
                    None => informant@[k].1.is_none(),
                },
        decreases lines.len() - i,
    {
        informant.push(parse_line(lines[i].clone()));
        i = i + 1;
    }
    informant
}

/// How a dataset is to be read.
#[derive(Debug, Clone, Copy, PartialEq, Eq, Structural)]
pub enum DatasetIter {
    /// The file is the dataset.
    File,
    /// The file is a program for the Python interpreter, which writes the
    /// dataset.
    Python,
    /// The file is a program for the shell, which writes the dataset.
    Shell,
}

/// Whether the text ends with the given symbols.
pub open spec fn ends_with(s: Seq<A>, suffix: Seq<A>) -> bool {
    s.len() >= suffix.len() && s.subrange(s.len() - suffix.len(), s.len() as int) == suffix
}

/// How the dataset with the given path is to be read: a path that ends in
/// `.py` names a program for the Python interpreter, one that ends in `.sh` a
/// program for the shell, and any other the dataset itself.
pub fn iter_dataset(path: &str) -> (r: DatasetIter)
    ensures
        ends_with(symbols_of(path@), seq![0x2Eu32, 0x70u32, 0x79u32]) ==> r == DatasetIter::Python,
        !ends_with(symbols_of(path@), seq![0x2Eu32, 0x70u32, 0x79u32]) && ends_with(
            symbols_of(path@),
            seq![0x2Eu32, 0x73u32, 0x68u32],
        ) ==> r == DatasetIter::Shell,
        !ends_with(symbols_of(path@), seq![0x2Eu32, 0x70u32, 0x79u32]) && !ends_with(
            symbols_of(path@),
            seq![0x2Eu32, 0x73u32, 0x68u32],
        ) ==> r == DatasetIter::File,
{
    let symbols = symbols_of_str(path);
    let n = symbols.len();
    if n >= 3 && symbols[n - 3] == 0x2E {
        let a = symbols[n - 2];
        let b = symbols[n - 1];
        proof {
            let tail = symbols@.subrange(n - 3, n as int);
            assert(tail[0] == 0x2E && tail[1] == a && tail[2] == b);
            if a == 0x70 && b == 0x79 {
                assert(tail =~= seq![0x2Eu32, 0x70u32, 0x79u32]);
            }
            if a == 0x73 && b == 0x68 {
                assert(tail =~= seq![0x2Eu32, 0x73u32, 0x68u32]);
            }
        }
        if a == 0x70 && b == 0x79 {
            return DatasetIter::Python;
        }
        if a == 0x73 && b == 0x68 {
            return DatasetIter::Shell;
        }
        DatasetIter::File
    } else {
        proof {
            if n >= 3 {
                let tail = symbols@.subrange(n - 3, n as int);
                assert(tail[0] != 0x2E);
            }
        }
        DatasetIter::File
    }
}

/// The alphabet of the inputs of the samples of a dataset.
pub fn infer_alph(informant: &Informant) -> (r: IntEmbedding)
    ensures
        r@ == crate::external_functions::alphabet_of(informant@),
{
    IntEmbedding::for_informant(informant)
}

/// The path that a call of `activeLearningFromDataset` names: the one
/// argument must be a list of one sample, whose input is the path.
pub fn dataset_path(pos: V, args: &FuncArgs) -> (r: Result<String, CompErr>)
    ensures
        args@.len() == 1 && args@[0] is Informant && args@[0]->Informant_0@.len() == 1 ==> r.is_ok()
            && r.unwrap()@ == args@[0]->Informant_0@[0].0@,
        !(args@.len() == 1 && args@[0] is Informant && args@[0]->Informant_0@.len() == 1) ==> (
        r matches Err(CompErr::IncorrectFunctionArguments(p, m)) && p == pos && m@
            == "Expected a single file path argument"@),
{
    if args.len() == 1 {
        if let FuncArg::Informant(i) = &args[0] {
            if i.len() == 1 {
                return Ok(i[0].0.as_str().to_owned());
            }
        }
    }
    Err(
        CompErr::IncorrectFunctionArguments(
            pos,
            "Expected a single file path argument".to_owned(),
        ),
    )
}

/// The external function `activeLearningFromDataset`, once the lines of the
/// dataset were read: learns a graph from the samples of the lines; see
/// `read_from` and `learning`.
pub fn ostia_compress_file(pos: V, lines: Vec<String>) -> (r: Result<G, CompErr>)
    ensures
        exists|informant: Seq<(IntSeq, Option<IntSeq>)>|
            read_from(lines@, informant) && #[trigger] learning(informant, pos, r),
{
    let informant = iter_lines(lines);
    let r = match infer_from_informant(pos, &informant) {
        Ok(x) => {
            let Inferred { ptt, red, g } = x;
            proof {
                let witness = Inferred { ptt, red, g };
                assert(learnt(informant@, witness, pos));
            }
            Ok(g)
        },
        Err(e) => Err(e),
    };
    proof {
        assert(learning(informant@, pos, r));
    }
    r
}

} // verus!
