use solomonoff::compilation_error::CompErr;
use solomonoff::compiler::Dataset;
use solomonoff::pipeline::NoExternal;
use solomonoff::repl::Repl;
use solomonoff::solomonoff::Solomonoff;

struct Case {
    code: String,
    accepted_inputs: Vec<&'static str>,
    rejected_inputs: Vec<&'static str>,
}

fn t(c: &'static str, i: Vec<&'static str>, r: Vec<&'static str>) -> Case {
    Case { code: String::from("f = ") + c, accepted_inputs: i, rejected_inputs: r }
}

fn a(c: &'static str, i: Vec<&'static str>, r: Vec<&'static str>) -> Case {
    Case { code: String::from(c), accepted_inputs: i, rejected_inputs: r }
}

fn p(c: &'static str, i: Vec<&'static str>, r: Vec<&'static str>) -> Case {
    Case { code: String::from("@f = ") + c, accepted_inputs: i, rejected_inputs: r }
}

fn sample_lines() -> Vec<String> {
    vec![
        String::from("a\tb"),
        String::from("aa\ta"),
        String::from("ab\tb"),
        String::from("ba\ta"),
        String::from("bb\tb"),
    ]
}

fn sample_paths() -> Vec<&'static str> {
    vec!["resources/test/sample.txt", "resources/test/sample.py", "resources/test/sample.sh"]
}

fn early_cases() -> Vec<Case> {
    vec![
        t("'aa'", vec!["aa;"], vec!["a"]),
        t("'aa'\n\n", vec!["aa;"], vec!["a"]),
        t("'aa' // 'bb'", vec!["aa;"], vec!["a"]),
        t("'aa' 'bb'", vec!["aabb;"], vec!["aa", ""]),
        t("'aa' \\\n 'bb'", vec!["aabb;"], vec!["aa", ""]),
        t("'aa' /* 'cc' */ 'bb'", vec!["aabb;"], vec!["aa", ""]),
        t("'aa' | 'bb'", vec!["aa;", "bb;"], vec!["a", "", "b"]),
        t("('aa' | 'bb')*", vec!["aa;", "bb;", ";", "aabbaa;"], vec!["a", "aba", "b"]),
        t("('aa':'yy' | 'bb':'xx')*", vec!["aa;yy", "bb;xx", ";", "aabbaa;yyxxyy"], vec!["a", "aba", "b"]),
        t("('aa':'yy' | 'bb':'xx')+", vec!["aa;yy", "bb;xx", "aabbaa;yyxxyy"], vec!["a", "", "aba", "b"]),
        t("('aa':'yy' | 'bb':'xx')?", vec!["aa;yy", "bb;xx", ";"], vec!["a", "aba", "b", "aabbaa"]),
        t(":'xx'", vec![";xx"], vec!["a", "aba", "b", "aabbaa"]),
        t(":'xx' :'yy'", vec![";xxyy"], vec!["a", "aba", "b", "aabbaa"]),
        a("g = :'xx' :'yy' \n f = 'aa' g", vec!["aa;xxyy"], vec!["a", "aba", "b", "aabbaa"]),
        a("\n g = :'xx' :'yy' \n\n f = 'aa' !!g g", vec!["aa;xxyyxxyy"], vec!["a", "aba", "b", "aabbaa"]),
        a("!!g = :'xx' :'yy' \n \r \n f = 'aa' g g", vec!["aa;xxyyxxyy"], vec!["a", "aba", "b", "aabbaa"]),
        t("'a':'b' 1 |'a':'c' 2", vec!["a;c"], vec!["aa", ""]),
        t("'a':'c' 2 | 'a':'b' 1 ", vec!["a;c"], vec!["aa", ""]),
        t("'a':'y' 0 | 'a':'c' 2 | 'a':'b' 1 ", vec!["a;c"], vec!["aa", ""]),
        t("3 'a':'c' 2 | 10 'a':'b' 1 ", vec!["a;c"], vec!["aa", ""]),
        t("'a':'b' 1 |'a':'c' -2", vec!["a;b"], vec!["aa", ""]),
    ]
}

fn session_cases() -> Vec<Case> {
    vec![
        t("'aa'", vec!["aa;"], vec!["a"]),
        t("'aa'\n\n", vec!["aa;"], vec!["a"]),
        t("'aa' // 'bb'", vec!["aa;"], vec!["a"]),
        t("'aa' 'bb'", vec!["aabb;"], vec!["aa", ""]),
        t("'aa' \n 'bb'", vec!["aabb;"], vec!["aa", ""]),
        t("'aa' /* 'cc' */ 'bb'", vec!["aabb;"], vec!["aa", ""]),
        t("'aa' | 'bb'", vec!["aa;", "bb;"], vec!["a", "", "b"]),
        t("('aa' | 'bb')*", vec!["aa;", "bb;", ";", "aabbaa;"], vec!["a", "aba", "b"]),
        t("('aa':'yy' | 'bb':'xx')*", vec!["aa;yy", "bb;xx", ";", "aabbaa;yyxxyy"], vec!["a", "aba", "b"]),
        t("('aa':'yy' | 'bb':'xx')+", vec!["aa;yy", "bb;xx", "aabbaa;yyxxyy"], vec!["a", "", "aba", "b"]),
        t("('aa':'yy' | 'bb':'xx')?", vec!["aa;yy", "bb;xx", ";"], vec!["a", "aba", "b", "aabbaa"]),
        t(":'xx'", vec![";xx"], vec!["a", "aba", "b", "aabbaa"]),
        t(":'xx' :'yy'", vec![";xxyy"], vec!["a", "aba", "b", "aabbaa"]),
        a("g = :'xx' :'yy' f = 'aa' g", vec!["aa;xxyy"], vec!["a", "aba", "b", "aabbaa"]),
        a("\n g = :'xx' :'yy' \n\n f = 'aa' !!g g", vec!["aa;xxyyxxyy"], vec!["a", "aba", "b", "aabbaa"]),
        a("!!g = :'xx' :'yy' \n \r \n f = 'aa' g g", vec!["aa;xxyyxxyy"], vec!["a", "aba", "b", "aabbaa"]),
        t("'a':'b' 1 |'a':'c' 2", vec!["a;c"], vec!["aa", ""]),
        t("'a':'c' 2 | 'a':'b' 1 ", vec!["a;c"], vec!["aa", ""]),
        t("'a':'y' 0 | 'a':'c' 2 | 'a':'b' 1 ", vec!["a;c"], vec!["aa", ""]),
        t("3 'a':'c' 2 | 10 'a':'b' 1 ", vec!["a;c"], vec!["aa", ""]),
        t("'a':'b' 1 |'a':'c' -2", vec!["a;b"], vec!["aa", ""]),
        t("('a':'b') 1* ", vec!["a;b", "aa;bb", ";"], vec!["aba", "b"]),
        t("('a':'x' ('a':'b') 1*)* ", vec!["aa;xb", "a;x", ";", "aaaa;xbbb"], vec!["aba", "b"]),
        t("('a':'x' ('a':'b') -1 *)* ", vec!["aa;xx", "a;x", ";", "aaaa;xxxx"], vec!["aba", "b"]),
        t("[abc]", vec!["a;", "b;", "c;"], vec!["aba", "", "ab", "d", "`"]),
        t("[a-c]", vec!["a;", "b;", "c;"], vec!["aba", "", "ab", "d", "`"]),
        t(":'\\0' 'a'", vec!["a;a"], vec!["aba", "", "ab"]),
        t("(:'\\0' [a-z ]|'xx':'010' 2)*", vec!["a;a", "b;b", "c;c", ";", "xx;010", "hello;hello", "helxxlo;hel010lo", "xxxx;010010"], vec!["0", "1", "[", "'", "\"", "-"]),
        t("<97>", vec!["a;"], vec!["aba", "", "ab"]),
        t("<97 98>", vec!["ab;"], vec!["aba", "", "a"]),
        t("<97 98 99>", vec!["abc;"], vec!["ab", "", "a"]),
        t("<[97 98 99]>", vec!["a;", "b;", "c;"], vec!["aba", "", "ab", "d", "`"]),
        t("<[97-99]>", vec!["a;", "b;", "c;"], vec!["aba", "", "ab", "d", "`"]),
        t("ostiaCompress!('a':'b','aa':'a','ab':'b','ba':'a','bb':'b')", vec!["a;b", "aa;a", "ab;b", "bb;b", "ba;a"], vec!["aba", "", "abb", "d", "b", "`"]),
        t("activeLearningFromDataset!('resources/test/sample.txt')", vec!["a;b", "aa;a", "ab;b", "bb;b", "ba;a"], vec!["aba", "", "abb", "d", "b", "`"]),
        t("activeLearningFromDataset!('resources/test/sample.py')", vec!["a;b", "aa;a", "ab;b", "bb;b", "ba;a"], vec!["aba", "", "abb", "d", "b", "`"]),
        t("activeLearningFromDataset!('resources/test/sample.sh')", vec!["a;b", "aa;a", "ab;b", "bb;b", "ba;a"], vec!["aba", "", "abb", "d", "b", "`"]),
    ]
}

fn compiler() -> Solomonoff<NoExternal> {
    let mut sol = Solomonoff::<NoExternal>::new();
    for path in sample_paths() {
        sol.provide_dataset(String::from(path), sample_lines());
    }
    sol
}

fn check(sol: &Solomonoff<NoExternal>, test: &Case) {
    let g = sol.get_transducer(&String::from("f")).unwrap();
    let r = g.optimise_graph();
    for input in &test.accepted_inputs {
        let (input, output) = input.split_once(';').unwrap();
        let y = r.evaluate_to_string(input);
        assert!(y.is_some(), "{} on {}", test.code, input);
        let y: String = y.unwrap();
        assert_eq!(y, String::from(output), "{} on {}", test.code, input);
    }
    for input in &test.rejected_inputs {
        let y = r.evaluate_to_string(input);
        assert!(y.is_none(), "{} on {}", test.code, input);
    }
}

#[test]
fn solomonoff_test_1() {
    let mut cases = session_cases();
    cases.insert(14, a("nonfunc f = 'a':'b' | 'a':'c'", vec![], vec![]));
    for test in cases {
        let mut sol = compiler();
        println!("Testing {}", test.code);
        sol.parse(test.code.as_str()).unwrap();
        check(&sol, &test);
        sol.delete_all()
    }
}

#[test]
fn parser_test_1() {
    for test in early_cases() {
        let mut sol = compiler();
        println!("Testing {}", test.code);
        sol.parse(test.code.as_str()).unwrap();
        check(&sol, &test);
        sol.delete_all()
    }
}

#[test]
fn repl_test_1() {
    let datasets: Vec<Dataset> = sample_paths()
        .into_iter()
        .map(|path| Dataset { path: String::from(path), lines: sample_lines() })
        .collect();
    for test in session_cases() {
        let mut sol = Repl::<NoExternal>::new();
        println!("Testing {}", test.code);
        sol.parse(test.code.as_str(), &datasets).unwrap();
        let g = sol.get(&String::from("f")).unwrap();
        let r = g.optimise_graph();
        for input in &test.accepted_inputs {
            let (input, output) = input.split_once(';').unwrap();
            let y = r.evaluate_to_string(input);
            assert!(y.is_some());
            let y: String = y.unwrap();
            assert_eq!(y, String::from(output));
        }
        for input in &test.rejected_inputs {
            let y = r.evaluate_to_string(input);
            assert!(y.is_none());
        }
        sol.delete_all()
    }
}

#[test]
fn pipeline_test_1() {
    let cases: Vec<Case> = vec![
        p("'aa'", vec!["aa;"], vec!["a"]),
        a("@f = 'a':'b' ; 'b':'c'", vec!["a;c"], vec!["aa", ""]),
        a("@f = 'a':'b' ; 'b':'c' ; 'c':'d'", vec!["a;d"], vec!["aa", ""]),
        a("@a = 'a':'b' @b = 'b':'c' @c = 'c':'d' @f = @a ; @b ; @c", vec!["a;d"], vec!["aa", ""]),
        a("@a = 'a':'b' @b = 'b':'c' @c = 'c':'d' @f = @(@a ; @b) ; @c", vec!["a;d"], vec!["aa", ""]),
        a("@a = 'a':'b' @b = 'b':'c' @c = 'c':'d' @f = @a ; @(@b ; @c)", vec!["a;d"], vec!["aa", ""]),
        a("@a = 'a':'b' @b = 'b':'c' @c = 'c':'d' @d = 'd':'e' @f = @a ; @b ; @c || @d", vec!["a;d", "d;e"], vec!["aa", "", "b", "c", "e"]),
    ];
    for test in cases {
        let mut sol = Solomonoff::<NoExternal>::new();
        println!("Testing {}", test.code);
        sol.parse(test.code.as_str()).unwrap();
        let g = sol.get_pipeline(&String::from("f")).unwrap();
        for input in test.accepted_inputs {
            let (input, output) = input.split_once(';').unwrap();
            let y = g.evaluate_to_string(input);
            assert!(y.is_some());
            let y: String = y.unwrap();
            assert_eq!(y, String::from(output));
        }
        for input in test.rejected_inputs {
            let y = g.evaluate_to_string(input);
            assert!(y.is_none());
        }
        sol.delete_all()
    }
}

#[test]
fn intervals_of_code_points() {
    let mut sol = Solomonoff::<NoExternal>::new();
    sol.parse("f = <97-99> g = <97-98 100> h = <[100]>").unwrap();
    let f = sol.get_transducer(&String::from("f")).unwrap().optimise_graph();
    for accepted in ["a", "b", "c"] {
        assert_eq!(f.evaluate_to_string(accepted), Some(String::new()));
    }
    for rejected in ["", "`", "d", "ab"] {
        assert_eq!(f.evaluate_to_string(rejected), None);
    }
    let g = sol.get_transducer(&String::from("g")).unwrap().optimise_graph();
    assert_eq!(g.evaluate_to_string("d"), Some(String::new()));
    assert_eq!(g.evaluate_to_string("c"), None);
    let h = sol.get_transducer(&String::from("h")).unwrap().optimise_graph();
    assert_eq!(h.evaluate_to_string("d"), Some(String::new()));
    assert_eq!(h.evaluate_to_string("e"), None);
}

#[test]
fn undefined_names_are_reported() {
    let mut sol = Solomonoff::<NoExternal>::new();
    match sol.parse("f = 'a' g") {
        Err(CompErr::UndefinedFunction(_, name)) => assert_eq!(name, "g"),
        _ => panic!("a name that is not bound is an error"),
    }
    match sol.parse("@f = @g") {
        Err(CompErr::UndefinedPipeline(_, name)) => assert_eq!(name, "g"),
        _ => panic!("a pipeline that is not bound is an error"),
    }
    match sol.parse("f = nothing!('a')") {
        Err(CompErr::UndefinedExternalFunc(_, name)) => assert_eq!(name, "nothing"),
        _ => panic!("a function that is not known is an error"),
    }
}

fn kinds(source: &str) -> Vec<String> {
    solomonoff::lexer::lex(source)
        .unwrap()
        .iter()
        .map(|t| format!("{:?}", t.tok))
        .collect()
}

#[test]
fn tokens_of_a_text() {
    assert_eq!(
        kinds("f = 'a\\'b' :'c' 12 -3 | [a-\\]] <97 98> <[1-2]> // rest\n !!g @h ; || nonfunc x!( ∅ , ) * + ? /* c */ ("),
        vec![
            "Id(\"f\")",
            "Assign",
            "Literal(\"a\\\\'b\")",
            "Colon",
            "Literal(\"c\")",
            "Number(12)",
            "Number(-3)",
            "Bar",
            "Bracket(\"a-\\\\]]\")",
            "Codepoints(\"97 98\")",
            "CodepointRange(\"1-2\")",
            "Copy",
            "Id(\"g\")",
            "At",
            "Id(\"h\")",
            "Semicolon",
            "Alternative",
            "Nonfunc",
            "Id(\"x\")",
            "Call",
            "Nothing",
            "Comma",
            "Close",
            "Star",
            "Plus",
            "Question",
            "Open",
        ]
    );
    let tokens = solomonoff::lexer::lex("  ab  'c'").unwrap();
    assert_eq!(tokens[0].offset, 2);
    assert_eq!(tokens[1].offset, 6);
    assert!(solomonoff::lexer::lex("").unwrap().is_empty());
    assert!(solomonoff::lexer::lex(" /* never closed").unwrap().is_empty());
}

#[test]
fn texts_that_cannot_be_read() {
    for (source, at, text) in [
        ("f = 'abc", 4, "String literal is not closed"),
        ("f = [abc", 4, "Range is not closed"),
        ("f = <97", 4, "List of code points is not closed"),
        ("f = <[97]", 4, "Range of code points is not closed"),
        ("f = #", 4, "Unexpected symbol"),
        ("f = !x", 4, "Unexpected symbol"),
        ("f = 99999999999", 4, "Weight is out of range"),
        ("f = 'a' 2147483648", 8, "Weight is out of range"),
    ] {
        match solomonoff::lexer::lex(source) {
            Err(CompErr::Parse(solomonoff::v::V::Position(p), m)) => {
                assert_eq!(p, at, "{}", source);
                assert_eq!(m, text, "{}", source);
            }
            _ => panic!("{} cannot be read", source),
        }
    }
    let tokens = solomonoff::lexer::lex("-2147483648 2147483647").unwrap();
    assert_eq!(format!("{:?}", tokens[0].tok), "Number(-2147483648)");
    assert_eq!(format!("{:?}", tokens[1].tok), "Number(2147483647)");
}

#[test]
fn statements_as_they_are_written() {
    let statements = solomonoff::parser::parse("f = 1 'a' 'b' 2 * | (:'c')? g = !!f h!('x':'y', 'z':∅, 'w')").unwrap();
    assert_eq!(statements.len(), 2);
    assert_eq!(
        format!("{:?}", statements[0]),
        "Define { offset: 0, name: \"f\", always_copy: false, nonfunc: false, body: \
         Union(18, Pre(1, Concat(Input(6, \"a\"), Star(16, Post(Input(10, \"b\"), 2)))), \
         Optional(26, Group(Output(21, \"c\")))) }"
    );
    assert_eq!(
        format!("{:?}", statements[1]),
        "Define { offset: 28, name: \"g\", always_copy: false, nonfunc: false, body: \
         Concat(Variable(32, \"f\", true), Call(36, \"h\", [Sample { input: \"x\", output: Some(Some(\"y\")) }, \
         Sample { input: \"z\", output: Some(None) }, Sample { input: \"w\", output: None }])) }"
    );
    let chains = solomonoff::parser::parse("@p = 'a' ; @q || @(@r ; 'b')").unwrap();
    assert_eq!(
        format!("{:?}", chains[0]),
        "Chain { offset: 0, name: \"p\", stages: Alternative(Compose(Automaton(5, Input(5, \"a\")), Named(11, \"q\")), \
         Group(Compose(Named(19, \"r\"), Automaton(24, Input(24, \"b\"))))) }"
    );
    assert!(solomonoff::parser::parse("").unwrap().is_empty());
}

#[test]
fn statements_that_cannot_be_read() {
    for (source, text) in [
        ("f", "An equals sign is expected"),
        ("'a'", "A name is expected"),
        ("f = ", "An expression is expected"),
        ("f = ('a'", "A closing parenthesis is expected"),
        ("f = :", "A string literal is expected"),
        ("f = !! 'a'", "A name is expected"),
        ("f = g!('a' 'b')", "A comma or a closing parenthesis is expected"),
        ("f = g!('a',)", "A string literal is expected"),
        ("f = 'a' | ", "An expression is expected"),
        ("@f = @", "A name is expected"),
        ("@f = @('a'", "A closing parenthesis is expected"),
        ("f = 'a' )", "A name is expected"),
    ] {
        match solomonoff::parser::parse(source) {
            Err(CompErr::Parse(_, m)) => assert_eq!(m, text, "{}", source),
            _ => panic!("{} cannot be read", source),
        }
    }
}

#[test]
fn names_are_used_up_unless_copied() {
    let mut sol = Solomonoff::<NoExternal>::new();
    sol.parse("g = 'a' f = g").unwrap();
    assert!(sol.get_transducer(&String::from("g")).is_none());
    assert!(sol.get_transducer(&String::from("f")).is_some());
    sol.parse("h = !!f").unwrap();
    assert!(sol.get_transducer(&String::from("f")).is_some());
    sol.parse("!!k = 'b' m = k k").unwrap();
    assert!(sol.get_transducer(&String::from("k")).is_some());
    match sol.parse("m = 'c'") {
        Err(CompErr::DuplicateFunction(_, _, name)) => assert_eq!(name, "m"),
        _ => panic!("a name that is bound twice is reported"),
    }
    let m = sol.get_transducer(&String::from("m")).unwrap().optimise_graph();
    assert_eq!(m.evaluate_to_string("c"), Some(String::from("")));
    assert_eq!(m.evaluate_to_string("bb"), None);
    match sol.parse("@p = 'a' @p = 'b'") {
        Err(CompErr::DuplicatePipeline(_, _, name)) => assert_eq!(name, "p"),
        _ => panic!("a pipeline that is bound twice is reported"),
    }
}

#[test]
fn expressions_that_stand_for_nothing() {
    let mut sol = Solomonoff::<NoExternal>::new();
    assert!(matches!(sol.parse("f = 'a\\0'"), Err(CompErr::Parse(_, _))));
    assert!(matches!(sol.parse("f = <0>"), Err(CompErr::Parse(_, _))));
    assert!(matches!(sol.parse("f = <1114112>"), Err(CompErr::Parse(_, _))));
    assert!(matches!(sol.parse("f = [b-a]"), Err(CompErr::Parse(_, _))));
    assert!(matches!(sol.parse("f = :'a\\"), Err(CompErr::Parse(_, _))));
    assert!(matches!(sol.parse("f = ('a'*)*"), Err(CompErr::KleeneNondeterminism(_, _))));
    assert!(matches!(sol.parse("f = :'a' | :'b'"), Err(CompErr::KleeneNondeterminism(_, _))));
    assert!(matches!(sol.parse("f = ('a'?)+"), Err(CompErr::KleeneNondeterminism(_, _))));
    assert!(sol.parse("kept = (:'a')+").is_ok());
    assert!(matches!(sol.parse("f = ('a'?)?"), Err(CompErr::KleeneNondeterminism(_, _))));
    assert!(matches!(
        sol.parse("f = ostiaCompress!('a':'b','a':'c')"),
        Err(CompErr::AmbiguousDictionary(_, _, _, _))
    ));
    match sol.parse("f = activeLearningFromDataset!('nowhere')") {
        Err(CompErr::Parse(_, m)) => assert_eq!(m, "nowhere"),
        _ => panic!("a dataset that was not read is an error"),
    }
    assert!(matches!(
        sol.parse("f = activeLearningFromDataset!('a', 'b')"),
        Err(CompErr::IncorrectFunctionArguments(_, _))
    ));
}

#[test]
fn datasets_that_a_text_names() {
    assert_eq!(
        Solomonoff::<NoExternal>::requests(
            "f = 'a' activeLearningFromDataset!('one.txt') | ostiaCompress!('a':'b') \
             @p = activeLearningFromDataset!('t\\wo.py') ; @q g = activeLearningFromDataset!('a', 'b')"
        )
        .unwrap(),
        vec![String::from("one.txt"), String::from("two.py")]
    );
    assert!(Solomonoff::<NoExternal>::requests("f = 'a").is_err());
}

#[test]
fn a_session_goes_on_where_the_compiler_stands() {
    let mut sol = Solomonoff::<NoExternal>::new();
    sol.parse("f = 'a':'b'").unwrap();
    let mut session = Repl::from(sol);
    assert!(session.get(&String::from("f")).is_some());
    assert!(session.get_cmd(&String::from("ls")).is_none());
    session.attach_standard_commands();
    match session.repl("/eval f a") {
        Ok(solomonoff::repl::ReplStep::Output(shown)) => assert_eq!(shown, Some(String::from("b"))),
        _ => panic!("the command evaluates the transducer"),
    }
    match session.repl("g = 'c'") {
        Ok(solomonoff::repl::ReplStep::Statement(source)) => {
            session.parse(&source, &Vec::new()).unwrap();
        }
        _ => panic!("a statement is handed back"),
    }
    match session.repl("/ls") {
        Ok(solomonoff::repl::ReplStep::Output(shown)) => assert_eq!(shown, Some(String::from("[f, g]"))),
        _ => panic!("the command lists the names"),
    }
}

#[test]
fn the_first_dataset_of_a_path_is_taken() {
    let mut sol = Solomonoff::<NoExternal>::new();
    sol.provide_dataset(String::from("d"), vec![String::from("a\tx")]);
    sol.provide_dataset(String::from("d"), vec![String::from("a\ty")]);
    sol.parse("f = activeLearningFromDataset!('d')").unwrap();
    let f = sol.get_transducer(&String::from("f")).unwrap().optimise_graph();
    assert_eq!(f.evaluate_to_string("a"), Some(String::from("x")));
    assert_eq!(f.evaluate_to_string("b"), None);
    assert_eq!(f.evaluate_to_string("aa"), None);
    assert_eq!(f.evaluate_to_string(""), None);
    match sol.parse("g = ostiaCompress!('a\\")  {
        Err(CompErr::Parse(_, m)) => assert_eq!(m, "String literal is not closed"),
        _ => panic!("a literal that is not closed is refused"),
    }
    match sol.parse("@p = activeLearningFromDataset!('e')") {
        Err(CompErr::Parse(_, m)) => assert_eq!(m, "e"),
        _ => panic!("a dataset that is not at hand is an error"),
    }
    sol.parse("@p = activeLearningFromDataset!('d') ; 'x':'z'").unwrap();
    let p = sol.get_pipeline(&String::from("p")).unwrap();
    assert_eq!(p.evaluate_to_string("a"), Some(String::from("z")));
}
