use solomonoff::compilation_error::CompErr;
use solomonoff::external_functions::{infer_from_informant, ostia_compress};
use solomonoff::func_arg::FuncArg;
use solomonoff::int_seq::IntSeq;
use solomonoff::v::V;

fn sample(input: &str, output: &str) -> (IntSeq, Option<IntSeq>) {
    (IntSeq::from(input), Some(IntSeq::from(output)))
}

#[test]
fn ostia_compress_test_eq1() {
    let informant = vec![sample("a", "a")];
    let g = infer_from_informant(V::UNKNOWN, &informant).unwrap().g;
    let r = g.optimise_graph();
    let mut t = r.make_state_to_index_table();
    let y = r.evaluate_tabular(&mut t, &[97]);
    let y: String = y.unwrap().iter().map(|&x| char::from_u32(x).unwrap()).collect();
    assert_eq!(String::from("a"), y);
}

#[test]
fn ostia_compress_test_eq2() {
    let informant = vec![sample("aa", "a"), sample("ab", "b")];
    let g = infer_from_informant(V::UNKNOWN, &informant).unwrap().g;
    let r = g.optimise_graph();
    assert_eq!(r.evaluate_to_string("aa"), Some(String::from("a")));
    assert_eq!(r.evaluate_to_string("ab"), Some(String::from("b")));
    assert_eq!(r.evaluate_to_string("a"), None);
    assert_eq!(r.evaluate_to_string("aaa"), None);
    assert_eq!(r.evaluate_to_string("b"), None);
}

#[test]
fn scenario_ostia_compress() {
    let informant = vec![
        sample("a", "b"),
        sample("aa", "a"),
        sample("ab", "b"),
        sample("ba", "a"),
        sample("bb", "b"),
    ];
    let g = ostia_compress(V::UNKNOWN, vec![FuncArg::new_informant(informant)]).unwrap();
    let r = g.optimise_graph();
    assert_eq!(r.evaluate_to_string("a"), Some(String::from("b")));
    assert_eq!(r.evaluate_to_string("aa"), Some(String::from("a")));
    assert_eq!(r.evaluate_to_string("ab"), Some(String::from("b")));
    assert_eq!(r.evaluate_to_string("ba"), Some(String::from("a")));
    assert_eq!(r.evaluate_to_string("bb"), Some(String::from("b")));
    assert_eq!(r.evaluate_to_string("aba"), None);
    assert_eq!(r.evaluate_to_string(""), None);
    assert_eq!(r.evaluate_to_string("abb"), None);
    assert_eq!(r.evaluate_to_string("d"), None);
    assert_eq!(r.evaluate_to_string("b"), None);
    assert_eq!(r.evaluate_to_string("`"), None);
}

#[test]
fn ostia_merges_equal_subtrees() {
    let informant = vec![sample("ac", "x"), sample("bc", "x")];
    let x = infer_from_informant(V::UNKNOWN, &informant).unwrap();
    // root, the child behind `a`, and the leaf behind `ac`; the child behind
    // `b` looks the same as the one behind `a` and is merged with it
    assert_eq!(x.red.len(), 3);
    assert_eq!(x.ptt.states.len(), 5);
    let r = x.g.optimise_graph();
    // the initial state stands for the root, which no edge leads back to
    assert_eq!(r.len(), 3);
    assert_eq!(r.evaluate_to_string("ac"), Some(String::from("x")));
    assert_eq!(r.evaluate_to_string("bc"), Some(String::from("x")));
    assert_eq!(r.evaluate_to_string("c"), None);
}

#[test]
fn ostia_pushes_common_output_up() {
    let informant = vec![sample("ab", "xy"), sample("ac", "xz")];
    let x = infer_from_informant(V::UNKNOWN, &informant).unwrap();
    let edge = x.ptt.states[0].transitions[0].as_ref().unwrap();
    assert_eq!(edge.output.as_slice(), "x".as_bytes());
    let r = x.g.optimise_graph();
    assert_eq!(r.evaluate_to_string("ab"), Some(String::from("xy")));
    assert_eq!(r.evaluate_to_string("ac"), Some(String::from("xz")));
}

#[test]
fn ostia_rejects_conflicting_samples() {
    let informant = vec![sample("a", "b"), sample("a", "c")];
    match infer_from_informant(V::UNKNOWN, &informant) {
        Err(CompErr::AmbiguousDictionary(pos, input, first, second)) => {
            assert_eq!(pos, V::UNKNOWN);
            assert_eq!(input, vec![97]);
            assert_eq!(first, vec![98]);
            assert_eq!(second, vec![99]);
        },
        _ => panic!("conflicting samples must be refused"),
    }
}

#[test]
fn ostia_rejects_null_input() {
    let informant = vec![sample("\0", "b")];
    match infer_from_informant(V::UNKNOWN, &informant) {
        Err(CompErr::Parse(_, m)) => assert_eq!(m, "Null character not allowed on input"),
        _ => panic!("the reflection marker must be refused as input"),
    }
}

#[test]
fn ostia_rejects_split_characters() {
    // the two outputs share the first byte of their encodings only
    let informant = vec![sample("aa", "é"), sample("ab", "è")];
    match infer_from_informant(V::UNKNOWN, &informant) {
        Err(CompErr::Parse(_, m)) => assert_eq!(m, "Output is not a valid UTF-8 string"),
        _ => panic!("an output cut inside a character must be refused"),
    }
}

#[test]
fn ostia_wrong_arguments() {
    match ostia_compress(V::UNKNOWN, vec![]) {
        Err(CompErr::IncorrectFunctionArguments(_, m)) => {
            assert_eq!(m, "Expected a single informant argument")
        },
        _ => panic!("no argument must be refused"),
    }
}
