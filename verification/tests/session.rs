use solomonoff::compilation_error::CompErr;
use solomonoff::e::FullEdge;
use solomonoff::func_arg::FuncArg;
use solomonoff::g::G;
use solomonoff::int_embedding::{Alphabet, IntEmbedding};
use solomonoff::int_seq::IntSeq;
use solomonoff::learn::lazy_dataset::{
    dataset_path, infer_alph, iter_dataset, iter_lines, ostia_compress_file, parse_line,
    DatasetIter,
};
use solomonoff::learn::ostia_compress::{Kind, Link, State, PTT};
use solomonoff::logger::{AccumulatingLogger, Logger, SilentLogger, ToggleableLogger};
use solomonoff::parser_state::{ExternalAction, ParserState};
use solomonoff::parser_utils::{
    parse_a, parse_char, parse_codepoint_range, parse_codepoints, parse_literal, parse_range,
    parse_u32, split_whitespace,
};
use solomonoff::pipeline::{NoExternal, Pipeline};
use solomonoff::repl::{parse_line as parse_repl_line, Repl, ReplLine, ReplStep};
use solomonoff::repl_command::{
    args_to_optional_value, args_to_value, args_to_value_value, format_list, repl_eval,
    repl_funcs, repl_ls, repl_print_help, repl_unset, repl_unset_all, ReplArg, ReplCommand,
};
use solomonoff::seq::Sequence;
use solomonoff::v::V;

fn parse_message<T>(r: Result<T, CompErr>) -> String {
    match r {
        Err(CompErr::Parse(_, m)) => m,
        Err(_) => panic!("another error than expected"),
        Ok(_) => panic!("an error was expected"),
    }
}

#[test]
fn numbers_are_read() {
    let digits = |s: &str| -> Vec<u32> { s.chars().map(|c| c as u32).collect() };
    assert_eq!(parse_u32(&digits("0")), Some(0));
    assert_eq!(parse_u32(&digits("007")), Some(7));
    assert_eq!(parse_u32(&digits("+12")), Some(12));
    assert_eq!(parse_u32(&digits("4294967295")), Some(u32::MAX));
    assert_eq!(parse_u32(&digits("4294967296")), None);
    assert_eq!(parse_u32(&digits("99999999999999999999999")), None);
    assert_eq!(parse_u32(&digits("")), None);
    assert_eq!(parse_u32(&digits("+")), None);
    assert_eq!(parse_u32(&digits("-1")), None);
    assert_eq!(parse_u32(&digits("1a")), None);
    assert_eq!(parse_u32(&digits(" 1")), None);
}

#[test]
fn scalar_values_are_read() {
    assert_eq!(parse_a(V::Position(1), "97").unwrap(), (V::Position(1), 97));
    assert_eq!(parse_a(V::UNKNOWN, "0").unwrap().1, 0);
    assert_eq!(parse_a(V::UNKNOWN, "1114111").unwrap().1, 0x10FFFF);
    assert_eq!(
        parse_message(parse_a(V::UNKNOWN, "1114112")),
        "Integer value 1114112 is not a valid unicode"
    );
    assert_eq!(
        parse_message(parse_a(V::UNKNOWN, "55296")),
        "Integer value 55296 is not a valid unicode"
    );
    assert_eq!(parse_message(parse_a(V::UNKNOWN, "é")), "Integer value é is not a valid unicode");
    assert_eq!(parse_char(V::UNKNOWN, 97).unwrap().1, 'a');
    assert_eq!(
        parse_message(parse_char(V::UNKNOWN, 0xD800)),
        "Codepoint 55296 is not a valid utf-8 character"
    );
}

#[test]
fn words_are_set_apart_by_white_space() {
    let s: Vec<u32> = " ab\t c\u{3000}\n d ".chars().map(|c| c as u32).collect();
    assert_eq!(split_whitespace(&s), vec![vec![97, 98], vec![99], vec![100]]);
    assert!(split_whitespace(&[]).is_empty());
    assert!(split_whitespace(&[32, 9]).is_empty());
    assert_eq!(split_whitespace(&[97]), vec![vec![97]]);
}

#[test]
fn codepoints_are_read() {
    assert_eq!(parse_codepoints("97 98  99", V::UNKNOWN).unwrap(), "abc");
    assert_eq!(parse_codepoints("", V::UNKNOWN).unwrap(), "");
    assert_eq!(
        parse_message(parse_codepoints("97 x 1114112", V::UNKNOWN)),
        "Integer value x is not a valid unicode"
    );
}

#[test]
fn codepoint_ranges_are_read() {
    let g = parse_codepoint_range("97-99 120", V::Position(2)).unwrap();
    assert_eq!(g.incoming().len(), 2);
    assert_eq!((g.incoming()[0].0.from_exclusive(), g.incoming()[0].0.to_inclusive()), (96, 99));
    assert_eq!((g.incoming()[1].0.from_exclusive(), g.incoming()[1].0.to_inclusive()), (119, 120));
    let r = g.optimise_graph();
    for accepted in ["a", "b", "c", "x"] {
        assert_eq!(r.evaluate_to_string(accepted), Some(String::new()));
    }
    for rejected in ["aba", "", "ab", "d", "`"] {
        assert_eq!(r.evaluate_to_string(rejected), None);
    }
    assert_eq!(
        parse_message(parse_codepoint_range("0-5", V::UNKNOWN)),
        "Null character not allowed on input"
    );
    assert_eq!(
        parse_message(parse_codepoint_range("99-97", V::UNKNOWN)),
        "Range ends before it begins"
    );
    assert_eq!(
        parse_message(parse_codepoint_range("97-", V::UNKNOWN)),
        "Integer value  is not a valid unicode"
    );
    assert_eq!(
        parse_message(parse_codepoint_range("97 9x-99", V::UNKNOWN)),
        "Integer value 9x is not a valid unicode"
    );
}

#[test]
fn bracket_ranges_are_read() {
    let r = parse_range("abc]", V::UNKNOWN).unwrap().optimise_graph();
    for accepted in ["a", "b", "c"] {
        assert_eq!(r.evaluate_to_string(accepted), Some(String::new()));
    }
    for rejected in ["aba", "", "ab", "d", "`"] {
        assert_eq!(r.evaluate_to_string(rejected), None);
    }
    let g = parse_range("a-c\\n\\--0]", V::UNKNOWN).unwrap();
    let bounds: Vec<(u32, u32)> =
        g.incoming().iter().map(|(e, _)| (e.from_exclusive(), e.to_inclusive())).collect();
    assert_eq!(bounds, vec![(96, 99), (9, 10), (44, 48)]);
    assert!(parse_range("]", V::UNKNOWN).unwrap().incoming().is_empty());
    assert!(parse_range("", V::UNKNOWN).unwrap().incoming().is_empty());
    assert_eq!(parse_message(parse_range("a-", V::UNKNOWN)), "Range breaks off");
    assert_eq!(parse_message(parse_range("a-\\", V::UNKNOWN)), "Range breaks off");
    // the last symbol closes the bracket, whatever it is
    assert_eq!(parse_range("a\\", V::UNKNOWN).unwrap().incoming().len(), 1);
    assert_eq!(parse_message(parse_range("z-a]", V::UNKNOWN)), "Range ends before it begins");
    assert_eq!(
        parse_message(parse_range("\\0-a]", V::UNKNOWN)),
        "Null character not allowed on input"
    );
}

#[test]
fn literals_are_read_symbol_by_symbol() {
    let mut it = parse_literal("a\\nb\\");
    assert_eq!(it.next(), Some(97));
    assert_eq!(it.next(), Some(10));
    assert_eq!(it.next(), Some(98));
    assert_eq!(it.next(), None);
    assert_eq!(it.next(), None);
    assert_eq!(parse_literal("\\\\\\0x").collect(), vec![92, 0, 120]);
    assert!(parse_literal("").collect().is_empty());
}

#[test]
fn alphabets_number_symbols_in_the_order_of_their_first_occurrence() {
    let informant = vec![
        (IntSeq::from("ba"), Some(IntSeq::from("x"))),
        (IntSeq::from("abc"), None),
        (IntSeq::from(""), None),
    ];
    let a = IntEmbedding::for_informant(&informant);
    assert_eq!(a.len(), 3);
    assert_eq!((a.embed(98), a.embed(97), a.embed(99)), (0, 1, 2));
    assert_eq!((a.retrieve(0), a.retrieve(1), a.retrieve(2)), (98, 97, 99));
    assert_eq!(a.try_embed(100), None);
    let s = IntEmbedding::for_strings(&[IntSeq::from("zz"), IntSeq::from("yz")]);
    assert_eq!((s.len(), s.embed(122), s.embed(121)), (2, 0, 1));
    let n = IntEmbedding::new(vec![5, 3]);
    assert_eq!((n.embed(5), n.embed(3), n.len()), (0, 1, 2));
    let mut e = IntEmbedding::empty();
    assert!(!e.add(7));
    assert!(e.add(7));
    e.add_all(&IntSeq::from("\u{7}a"));
    assert_eq!(e.len(), 2);
    assert_eq!(infer_alph(&informant).len(), 3);
}

#[test]
fn prefix_trees_are_built_sample_by_sample() {
    let mut ptt = PTT::new(IntEmbedding::new(vec![97, 98]));
    assert_eq!(ptt.states.len(), 1);
    assert_eq!(ptt.insert_word(&[0, 1], "xy".as_bytes()), Ok(()));
    assert_eq!(ptt.insert_word(&[0, 1], "xy".as_bytes()), Ok(()));
    assert_eq!(ptt.insert_word(&[0], "x".as_bytes()), Ok(()));
    assert_eq!(ptt.insert_word(&[0, 1], "xz".as_bytes()), Err("xy".as_bytes().to_vec()));
    assert_eq!(ptt.insert_ptt_positive(&IntSeq::from("b"), &IntSeq::from("q")), Ok(()));
    assert_eq!(ptt.embed_word(&IntSeq::from("ba")), vec![1, 0]);
    assert_eq!(ptt.states.len(), 4);
    match &ptt.states[1].output {
        Kind::Accepting(o) => assert!(o.is_empty()),
        _ => panic!("the input a is accepted"),
    }
    assert!(ptt.ostia_fold(3, 3));
    assert!(!ptt.ostia_fold(0, 1));
    let red = ptt.ostia_compress();
    assert_eq!(red[0], 0);
    assert_eq!(ptt.find_fold(&vec![0], 1), None);
    let g = ptt.compile(&red, V::UNKNOWN).unwrap();
    assert_eq!(g.pool.len(), 4);
    let r = g.optimise_graph();
    assert_eq!(r.evaluate_to_string("ab"), Some(String::from("xy")));
    assert_eq!(r.evaluate_to_string("a"), Some(String::from("x")));
    assert_eq!(r.evaluate_to_string("b"), Some(String::from("q")));
    assert_eq!(r.evaluate_to_string(""), None);
}

#[test]
fn states_push_outputs_back() {
    let mut s = State::new(2);
    assert!(s.transitions.iter().all(|t| t.is_none()));
    s.output = Kind::Accepting(Sequence::from("c".as_bytes()));
    s.transitions[1] = Some(solomonoff::learn::ostia_compress::Edge::new(Sequence::from("d".as_bytes()), 5));
    s.pushback("ab".as_bytes());
    match &s.output {
        Kind::Accepting(o) => assert_eq!(o.as_slice(), "abc".as_bytes()),
        _ => panic!("the state accepts"),
    }
    let e = s.transitions[1].as_ref().unwrap();
    assert_eq!(e.output.as_slice(), "abd".as_bytes());
    assert_eq!(e.target.get(), 5);
    assert_eq!(Link::Weak(3).get(), 3);
    let mut k = Kind::Unknown;
    k.mutate("x".as_bytes());
    assert!(matches!(k, Kind::Unknown));
    let mut k = Kind::Rejecting;
    k.mutate("x".as_bytes());
    assert!(matches!(k, Kind::Rejecting));
}

#[test]
fn datasets_are_read_line_by_line() {
    assert_eq!(parse_line(String::from("ab\tcd")), (IntSeq::from("ab"), Some(IntSeq::from("cd"))));
    assert_eq!(parse_line(String::from("ab")), (IntSeq::from("ab"), None));
    assert_eq!(parse_line(String::from("\t")), (IntSeq::from(""), Some(IntSeq::from(""))));
    assert_eq!(parse_line(String::from("a\tb\tc")), (IntSeq::from("a"), Some(IntSeq::from("b\tc"))));
    let informant = iter_lines(vec![String::from("a\tb"), String::from("q")]);
    assert_eq!(informant.len(), 2);
    assert_eq!(informant[1], (IntSeq::from("q"), None));
    assert_eq!(iter_dataset("resources/test/sample.txt"), DatasetIter::File);
    assert_eq!(iter_dataset("resources/test/sample.py"), DatasetIter::Python);
    assert_eq!(iter_dataset("resources/test/sample.sh"), DatasetIter::Shell);
    assert_eq!(iter_dataset(".py"), DatasetIter::Python);
    assert_eq!(iter_dataset("py"), DatasetIter::File);
    assert_eq!(iter_dataset(""), DatasetIter::File);
    let lines: Vec<String> =
        ["a\tb", "aa\ta", "ab\tb", "ba\ta", "bb\tb"].iter().map(|s| String::from(*s)).collect();
    let r = ostia_compress_file(V::UNKNOWN, lines).unwrap().optimise_graph();
    for (input, output) in [("a", "b"), ("aa", "a"), ("ab", "b"), ("bb", "b"), ("ba", "a")] {
        assert_eq!(r.evaluate_to_string(input), Some(String::from(output)));
    }
    for rejected in ["aba", "", "abb", "d", "b", "`"] {
        assert_eq!(r.evaluate_to_string(rejected), None);
    }
    let path = vec![FuncArg::new_informant(vec![(IntSeq::from("data.txt"), None)])];
    assert_eq!(dataset_path(V::UNKNOWN, &path).unwrap(), "data.txt");
    match dataset_path(V::UNKNOWN, &vec![FuncArg::new_expression(G::new_empty())]) {
        Err(CompErr::IncorrectFunctionArguments(_, m)) => {
            assert_eq!(m, "Expected a single file path argument")
        },
        _ => panic!("an expression is no path"),
    }
}

#[test]
fn loggers() {
    let mut log = AccumulatingLogger::new();
    log.print(String::from("a"));
    log.println(String::from("b"));
    log.print(String::from("c"));
    assert_eq!(log.get(), "ab\nc");
    log.reset();
    assert_eq!(log.get(), "");
    let mut t = ToggleableLogger::new();
    assert!(!t.is_silent());
    assert_eq!(t.pass(String::from("x")), Some(String::from("x")));
    t.toggle(true);
    assert!(t.is_silent());
    assert_eq!(t.pass(String::from("x")), None);
    let mut s = SilentLogger::new();
    s.print(String::from("x"));
    s.println(String::from("y"));
}

#[test]
fn names_are_bound_and_freed() {
    let mut state = ParserState::<NoExternal>::new_with_standard_library();
    let f = String::from("f");
    assert!(state.introduce_variable(f.clone(), V::Position(1), false, G::new_from_string("a", V::UNKNOWN)).is_ok());
    match state.introduce_variable(f.clone(), V::Position(2), true, G::new_from_string("b", V::UNKNOWN)) {
        Err(CompErr::DuplicateFunction(first, second, name)) => {
            assert_eq!((first, second, name), (V::Position(1), V::Position(2), f.clone()));
        },
        _ => panic!("a name that is bound twice is an error"),
    }
    assert_eq!(state.iter_variables(), vec![f.clone()]);
    // the second binding stands, and it is copied when it is used
    let (pos, copy, g) = state.consume_variable(f.clone()).unwrap();
    assert_eq!((pos, copy, g.incoming()[0].0.to_inclusive()), (V::Position(2), true, 98));
    assert!(state.borrow_variable(&f).is_some());
    assert!(state.copy_variable(&f).is_some());
    assert!(state.get_optimised(&f).is_none());
    assert!(state.optimise(&f));
    assert_eq!(state.get_optimised(&f).unwrap().evaluate_to_string("b"), Some(String::new()));
    assert!(!state.optimise(&String::from("g")));
    // a binding that is not copied is given away
    let g = String::from("g");
    state.introduce_variable(g.clone(), V::UNKNOWN, false, G::new_empty()).unwrap();
    assert!(state.consume_variable(g.clone()).is_some());
    assert!(state.consume_variable(g.clone()).is_none());
    assert!(state.delete_variable(f.clone()));
    assert!(!state.delete_variable(f.clone()));
    state.introduce_variable(f.clone(), V::UNKNOWN, false, G::new_empty()).unwrap();
    state.delete_all();
    assert!(state.iter_variables().is_empty());
    assert_eq!(state.find_variable(&f), None);
}

#[test]
fn pipelines_are_bound() {
    let mut state = ParserState::<NoExternal>::new();
    let p = || Pipeline::new(G::new_from_string("a", V::UNKNOWN).optimise_graph(), V::UNKNOWN);
    let f = String::from("f");
    assert!(state.register_pipeline(f.clone(), V::Position(1), p()).is_ok());
    assert!(state.borrow_pipeline(&f).is_some());
    assert!(state.borrow_pipeline(&String::from("g")).is_none());
    match state.register_pipeline(f.clone(), V::Position(2), p()) {
        Err(CompErr::DuplicatePipeline(first, second, name)) => {
            assert_eq!((first, second, name), (V::Position(1), V::Position(2), f));
        },
        _ => panic!("a name that is bound twice is an error"),
    }
}

#[test]
fn external_functions_are_called_by_name() {
    let state = ParserState::<NoExternal>::new_with_standard_library();
    assert_eq!(state.iter_functions(), &vec![String::from("ostiaCompress"), String::from("activeLearningFromDataset")]);
    assert!(state.knows_function(&String::from("ostiaCompress")));
    assert!(!ParserState::<NoExternal>::new().knows_function(&String::from("ostiaCompress")));
    let informant = vec![FuncArg::new_informant(vec![(IntSeq::from("a"), Some(IntSeq::from("b")))])];
    match state.external_function(String::from("ostiaCompress"), V::UNKNOWN, informant) {
        Ok(ExternalAction::Graph(g)) => {
            assert_eq!(g.optimise_graph().evaluate_to_string("a"), Some(String::from("b")))
        },
        _ => panic!("a graph was expected"),
    }
    let path = vec![FuncArg::new_informant(vec![(IntSeq::from("x.py"), None)])];
    match state.external_function(String::from("activeLearningFromDataset"), V::UNKNOWN, path) {
        Ok(ExternalAction::ReadDataset(p)) => assert_eq!(p, "x.py"),
        _ => panic!("a path was expected"),
    }
    match state.external_function(String::from("nothing"), V::Position(3), vec![]) {
        Err(CompErr::UndefinedExternalFunc(pos, name)) => {
            assert_eq!((pos, name), (V::Position(3), String::from("nothing")))
        },
        _ => panic!("an unknown function is an error"),
    }
}

fn value(s: &str) -> ReplArg {
    ReplArg::Value(String::from(s))
}

fn message<T>(r: Result<T, CompErr>) -> String {
    match r {
        Err(CompErr::IncorrectCommandArguments(m)) => m,
        _ => panic!("wrong arguments were expected"),
    }
}

#[test]
fn arguments_of_commands() {
    assert_eq!(value("v").get_value(), "v");
    assert_eq!(value("v").get_key(), "v");
    let kv = || ReplArg::KeyValue(String::from("k"), String::from("v"));
    assert_eq!(kv().get_value(), "v");
    assert_eq!(kv().get_key(), "k");
    assert_eq!(args_to_value(vec![value("a")], "ID").unwrap(), "a");
    assert_eq!(message(args_to_value(vec![], "ID")), "Expected ID");
    assert_eq!(message(args_to_value(vec![kv()], "ID")), "Expected ID");
    assert_eq!(message(args_to_value(vec![value("a"), value("b")], "ID")), "Expected ID");
    assert_eq!(
        args_to_value_value(vec![value("a"), value("b")], "ID", "INPUT").unwrap(),
        (String::from("a"), String::from("b"))
    );
    assert_eq!(message(args_to_value_value(vec![value("a")], "ID", "INPUT")), "Expected ID and INPUT");
    assert_eq!(
        message(args_to_value_value(vec![value("a"), kv()], "ID", "INPUT")),
        "Expected ID and INPUT"
    );
    assert_eq!(args_to_optional_value(vec![], "CMD").unwrap(), None);
    assert_eq!(args_to_optional_value(vec![value("x")], "CMD").unwrap(), Some(String::from("x")));
    assert_eq!(message(args_to_optional_value(vec![kv()], "CMD")), "Expected CMD or nothing");
    assert_eq!(format_list(&vec![]), "[]");
    assert_eq!(format_list(&vec![String::from("a")]), "[a]");
    assert_eq!(format_list(&vec![String::from("a"), String::from("b")]), "[a, b]");
    assert_eq!(repl_print_help(), ReplCommand::PrintHelp);
    assert_eq!(repl_eval().description(), "Evaluates a transducer");
    assert_eq!(repl_ls(), ReplCommand::Ls);
    assert_eq!(repl_funcs(), ReplCommand::Funcs);
    assert_eq!(repl_unset(), ReplCommand::Unset);
    assert_eq!(repl_unset_all(), ReplCommand::UnsetAll);
}

fn session() -> Repl<NoExternal> {
    let mut repl = Repl::new_with_standard_commands();
    for (name, word) in [("zeta", "z"), ("alpha", "a"), ("mid", "m")] {
        let g = G::new_from_reflected_string(word, V::UNKNOWN);
        repl.state_mut().introduce_variable(String::from(name), V::UNKNOWN, false, g).unwrap();
    }
    repl
}

fn shown(step: Result<ReplStep, CompErr>) -> Option<String> {
    match step {
        Ok(ReplStep::Output(out)) => out,
        _ => panic!("output was expected"),
    }
}

#[test]
fn session_evaluates_bound_names() {
    // every case binds f and evaluates it: here the bindings are made by calls
    let mut repl = Repl::<NoExternal>::new_with_standard_commands();
    let f = String::from("f");
    repl.state_mut().introduce_variable(f.clone(), V::UNKNOWN, false, G::new_from_string("aa", V::UNKNOWN)).unwrap();
    assert_eq!(repl.eval(&f, "aa"), Ok(Some(IntSeq::from(""))));
    assert_eq!(repl.eval(&f, "a"), Ok(None));
    assert_eq!(shown(repl.repl("/eval f aa")), Some(String::from("")));
    assert_eq!(shown(repl.repl("/eval f a")), Some(String::from("No match!")));
}

#[test]
fn commands_of_the_session() {
    let mut repl = session();
    assert_eq!(shown(repl.repl("/ls")), Some(String::from("[alpha, mid, zeta]")));
    assert_eq!(shown(repl.repl("/eval alpha a")), Some(String::from("a")));
    assert_eq!(shown(repl.repl("/eval alpha b")), Some(String::from("No match!")));
    assert_eq!(shown(repl.repl("/funcs")), Some(String::from("[ostiaCompress, activeLearningFromDataset]")));
    assert_eq!(shown(repl.repl("/unset mid")), None);
    assert_eq!(shown(repl.repl("/ls")), Some(String::from("[alpha, zeta]")));
    match repl.repl("/unset mid") {
        Err(CompErr::NonexistentTransducer(name)) => assert_eq!(name, "mid"),
        _ => panic!("a name that is not bound is an error"),
    }
    match repl.repl("/eval nothing a") {
        Err(CompErr::NonexistentTransducer(name)) => assert_eq!(name, "nothing"),
        _ => panic!("a name that is not bound is an error"),
    }
    match repl.repl("/nothing") {
        Err(CompErr::UnrecognisedCommand(name)) => assert_eq!(name, "nothing"),
        _ => panic!("an unknown command is an error"),
    }
    assert_eq!(message(repl.repl("/eval alpha")), "Expected ID and INPUT");
    assert_eq!(message(repl.repl("/unset")), "Expected ID");
    assert_eq!(shown(repl.repl("/? ls")), Some(String::from("ls\n\tLists all defined transducers")));
    assert_eq!(shown(repl.repl("/? nothing")), Some(String::from("No such command!")));
    let help = shown(repl.repl("/?")).unwrap();
    assert!(help.starts_with("?\n\tPrints help\neval\n\tEvaluates a transducer\n"));
    assert!(help.ends_with("unset_all\n\tRemoves all defined transducers\n"));
    assert_eq!(help, repl.help());
    assert_eq!(shown(repl.repl("/unset_all")), None);
    assert_eq!(shown(repl.repl("/ls")), Some(String::from("[]")));
    assert_eq!(repl.iter_cmds().len(), 6);
    assert_eq!(repl.get_cmd(&String::from("eval")), Some(ReplCommand::Eval));
    assert_eq!(repl.get_cmd(&String::from("exit")), None);
    repl.attach_cmd(String::from("list"), ReplCommand::Ls);
    assert_eq!(shown(repl.repl("/list")), Some(String::from("[]")));
    assert!(repl.state().iter_variables().is_empty());
    repl.delete_all();
}

#[test]
fn lines_of_the_session() {
    match parse_repl_line("f = 'a'") {
        ReplLine::Statement(s) => assert_eq!(s, "f = 'a'"),
        _ => panic!("a statement was expected"),
    }
    match parse_repl_line("/ f = 'a'") {
        ReplLine::Statement(s) => assert_eq!(s, " f = 'a'"),
        _ => panic!("a statement was expected"),
    }
    match parse_repl_line("/") {
        ReplLine::Statement(s) => assert_eq!(s, ""),
        _ => panic!("a statement was expected"),
    }
    match parse_repl_line("") {
        ReplLine::Statement(s) => assert_eq!(s, ""),
        _ => panic!("a statement was expected"),
    }
    match parse_repl_line("/eval f  k=v =x y=") {
        ReplLine::Command(name, args) => {
            assert_eq!(name, "eval");
            assert_eq!(args.len(), 4);
            assert!(matches!(&args[0], ReplArg::Value(v) if v == "f"));
            assert!(matches!(&args[1], ReplArg::KeyValue(k, v) if k == "k" && v == "v"));
            assert!(matches!(&args[2], ReplArg::Value(v) if v == "=x"));
            assert!(matches!(&args[3], ReplArg::KeyValue(k, v) if k == "y" && v.is_empty()));
        },
        _ => panic!("a command was expected"),
    }
    let mut repl = session();
    match repl.repl("g = 'a'") {
        Ok(ReplStep::Statement(s)) => assert_eq!(s, "g = 'a'"),
        _ => panic!("a statement was expected"),
    }
}
