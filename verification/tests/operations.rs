use solomonoff::compilation_error::CompErr;
use solomonoff::e::FullEdge;
use solomonoff::g::G;
use solomonoff::int_seq::IntSeq;
use solomonoff::n::N;
use solomonoff::p::{is_neutral, PartialEdge, P};
use solomonoff::parser_utils::{post_w, pre_w};
use solomonoff::v::V;

fn p(weight: i32, output: &str) -> P {
    P::new(weight, IntSeq::from(output))
}

fn word(s: &str) -> G {
    G::new_from_string(s, V::UNKNOWN)
}

fn out(s: &str) -> G {
    G::new_from_output_string(IntSeq::from(s))
}

#[test]
fn regular_operations_test_1() {
    let g = word("a").union(word("bc"), V::UNKNOWN).unwrap();
    let r = g.optimise_graph();
    let mut state_to_index = r.make_state_to_index_table();
    let y = r.evaluate_tabular(&mut state_to_index, &[97]);
    assert!(y.is_some());
    let y: String = y.unwrap().iter().map(|&x| char::from_u32(x).unwrap()).collect();
    assert_eq!(y, String::from(""));
    let y = r.evaluate_tabular(&mut state_to_index, &[98, 99]);
    assert!(y.is_some());
    let y: String = y.unwrap().iter().map(|&x| char::from_u32(x).unwrap()).collect();
    assert_eq!(y, String::from(""));
}

#[test]
fn epsilon_union_keeps_the_greater_weight() {
    let (a, b) = (Some(p(1, "a")), Some(p(2, "b")));
    let none: Option<P> = None;
    assert!(G::epsilon_union(V::UNKNOWN, &none, &none).unwrap().is_none());
    assert_eq!(G::epsilon_union(V::UNKNOWN, &a, &none).unwrap().as_ref().unwrap().weight(), 1);
    assert_eq!(G::epsilon_union(V::UNKNOWN, &none, &b).unwrap().as_ref().unwrap().weight(), 2);
    assert_eq!(G::epsilon_union(V::UNKNOWN, &a, &b).unwrap().as_ref().unwrap().weight(), 2);
    assert_eq!(G::epsilon_union(V::UNKNOWN, &b, &a).unwrap().as_ref().unwrap().weight(), 2);
    let same = Some(p(1, "a"));
    assert_eq!(
        G::epsilon_union(V::UNKNOWN, &a, &same).unwrap().as_ref().unwrap().output(),
        &IntSeq::from("a")
    );
    let other = Some(p(1, "z"));
    match G::epsilon_union(V::Position(3), &a, &other) {
        Err(CompErr::KleeneNondeterminism(pos, eps)) => {
            assert_eq!(pos, V::Position(3));
            assert_eq!(eps.output(), &IntSeq::from("z"));
        },
        _ => panic!("two epsilons of one weight and different outputs have no union"),
    }
}

#[test]
fn epsilon_kleene_refuses_the_neutral_epsilon() {
    let none: Option<P> = None;
    assert!(G::epsilon_kleene(V::UNKNOWN, &none).is_ok());
    assert!(G::epsilon_kleene(V::UNKNOWN, &Some(p(1, ""))).is_ok());
    assert!(G::epsilon_kleene(V::UNKNOWN, &Some(p(0, "x"))).is_ok());
    match G::epsilon_kleene(V::Position(1), &Some(P::neutral())) {
        Err(CompErr::KleeneNondeterminism(pos, eps)) => {
            assert_eq!(pos, V::Position(1));
            assert!(is_neutral(&eps));
        },
        _ => panic!("the neutral epsilon must be refused"),
    }
}

#[test]
fn union_puts_the_graphs_side_by_side() {
    let g = word("ab").union(word("c"), V::UNKNOWN).unwrap();
    assert_eq!(g.pool.len(), 3);
    assert_eq!(g.incoming().len(), 2);
    assert_eq!(g.incoming()[1].1, 2);
    assert_eq!(g.outgoing().len(), 2);
    assert_eq!((g.outgoing()[0].0, g.outgoing()[1].0), (1, 2));
    assert!(g.epsilon().is_none());
    assert!(out("x").union(post_w((out("y"), 0)), V::UNKNOWN).is_err());
    let e = post_w((out("x"), 1)).union(out("y"), V::UNKNOWN).unwrap();
    assert_eq!(e.epsilon().as_ref().unwrap().output(), &IntSeq::from("x"));
}

#[test]
fn concat_connects_the_ends() {
    let l = post_w((word("a"), 2));
    let g = l.concat(word("bc"));
    assert_eq!(g.pool.len(), 3);
    assert_eq!(g.incoming().len(), 1);
    assert_eq!(g.outgoing().len(), 1);
    assert_eq!(g.outgoing()[0].0, 2);
    let bridge = &N::outgoing(0, &g.pool)[0];
    assert_eq!(bridge.1, 1);
    assert_eq!(bridge.0.to_inclusive(), 98);
    assert_eq!(bridge.0.weight(), 2);
    assert_eq!(N::outgoing(1, &g.pool)[0].1, 2);
}

#[test]
fn concat_with_an_empty_graph_is_empty() {
    assert!(G::new_empty().concat(word("a")).is_empty());
    assert!(word("a").concat(G::new_empty()).is_empty());
}

#[test]
fn concat_with_epsilons() {
    // left epsilon: the ways into the right graph are ways into the result
    let g = out("x").concat(word("a"));
    assert_eq!(g.incoming().len(), 1);
    assert_eq!(g.incoming()[0].0.output(), &IntSeq::from("x"));
    assert!(g.epsilon().is_none());
    // right epsilon: the ends of the left graph are ends of the result
    let g = word("a").concat(out("y"));
    assert_eq!(g.outgoing().len(), 1);
    assert_eq!(g.outgoing()[0].1.output(), &IntSeq::from("y"));
    // both: the epsilons are multiplied
    let g = post_w((out("x"), 1)).concat(post_w((out("y"), 2)));
    assert_eq!(g.epsilon().as_ref().unwrap().weight(), 3);
    assert_eq!(g.epsilon().as_ref().unwrap().output(), &IntSeq::from("xy"));
}

#[test]
fn concat_with_the_neutral_epsilon_changes_nothing() {
    let g = post_w((word("ab"), 3)).concat(G::new_neutral_epsilon());
    assert_eq!((g.pool.len(), g.incoming().len(), g.outgoing().len()), (2, 1, 1));
    assert_eq!(g.outgoing()[0].1.weight(), 3);
    assert!(g.epsilon().is_none());
    let r = g.optimise_graph();
    assert_eq!(r.evaluate_to_string("ab"), Some(String::new()));
    let g = G::new_neutral_epsilon().concat(post_w((word("ab"), 3)));
    assert_eq!((g.pool.len(), g.incoming().len(), g.outgoing().len()), (2, 1, 1));
    assert_eq!(g.incoming()[0].0.weight(), 0);
    assert!(g.epsilon().is_none());
    assert_eq!(g.optimise_graph().evaluate_to_string("ab"), Some(String::new()));
    assert_eq!(g.optimise_graph().evaluate_to_string("a"), None);
}

#[test]
fn union_is_commutative_in_what_it_accepts() {
    let a = || word("ab").concat(out("x"));
    let b = || word("c").concat(out("y"));
    let one = a().union(b(), V::UNKNOWN).unwrap().optimise_graph();
    let two = b().union(a(), V::UNKNOWN).unwrap().optimise_graph();
    for input in ["ab", "c", "", "a", "abc", "d"] {
        assert_eq!(one.evaluate_to_string(input), two.evaluate_to_string(input));
    }
    assert_eq!(one.evaluate_to_string("ab"), Some(String::from("x")));
    assert_eq!(two.evaluate_to_string("c"), Some(String::from("y")));
}

#[test]
fn kleene_star_plus_and_optional() {
    let a = || word("a").concat(out("b"));
    let star = a().kleene(V::UNKNOWN).unwrap();
    assert!(is_neutral(star.epsilon().as_ref().unwrap()));
    let r = star.optimise_graph();
    assert_eq!(r.evaluate_to_string(""), Some(String::new()));
    assert_eq!(r.evaluate_to_string("aaa"), Some(String::from("bbb")));
    // what the star accepts holds what the graph followed by the star accepts
    let both = a().concat(a().kleene(V::UNKNOWN).unwrap()).optimise_graph();
    for input in ["a", "aa", "aaaa"] {
        assert_eq!(both.evaluate_to_string(input), r.evaluate_to_string(input));
    }
    let plus = a().kleene_semigroup(V::UNKNOWN).unwrap().optimise_graph();
    assert_eq!(plus.evaluate_to_string(""), None);
    assert_eq!(plus.evaluate_to_string("aa"), Some(String::from("bb")));
    let optional = a().kleene_optional(V::UNKNOWN).unwrap().optimise_graph();
    assert_eq!(optional.evaluate_to_string(""), Some(String::new()));
    assert_eq!(optional.evaluate_to_string("a"), Some(String::from("b")));
    assert_eq!(optional.evaluate_to_string("aa"), None);
}

#[test]
fn kleene_errors() {
    assert!(G::new_neutral_epsilon().kleene(V::UNKNOWN).is_err());
    assert!(G::new_neutral_epsilon().kleene_optional(V::UNKNOWN).is_err());
    assert!(out("x").kleene_optional(V::UNKNOWN).is_ok());
    let kept = out("x").kleene_semigroup(V::UNKNOWN).unwrap();
    assert_eq!(kept.epsilon().as_ref().unwrap().output(), &IntSeq::from("x"));
    match G::new_neutral_epsilon().kleene_semigroup(V::Position(2)) {
        Err(CompErr::KleeneNondeterminism(pos, eps)) => {
            assert_eq!(pos, V::Position(2));
            assert!(is_neutral(&eps));
        },
        _ => panic!("the neutral epsilon must be refused"),
    }
}

#[test]
fn actions_on_graphs() {
    let g = word("a").union(out("e"), V::UNKNOWN).unwrap();
    let r = g.right_action_on_graph(&p(1, "r"));
    assert_eq!(r.outgoing()[0].1.output(), &IntSeq::from("r"));
    assert_eq!(r.outgoing()[0].1.weight(), 1);
    assert_eq!(r.epsilon().as_ref().unwrap().output(), &IntSeq::from("er"));
    let l = p(2, "l").left_action_on_graph(r);
    assert_eq!(l.incoming()[0].0.output(), &IntSeq::from("l"));
    assert_eq!(l.incoming()[0].0.weight(), 2);
    assert_eq!(l.epsilon().as_ref().unwrap().output(), &IntSeq::from("ler"));
    assert_eq!(l.epsilon().as_ref().unwrap().weight(), 3);
}

#[test]
fn weights_in_front_and_behind() {
    let g = pre_w((3, word("a")));
    assert_eq!(g.incoming()[0].0.weight(), 3);
    let g = pre_w((0, word("a")));
    assert_eq!(g.incoming()[0].0.weight(), 0);
    let g = post_w((word("a"), -4));
    assert_eq!(g.outgoing()[0].1.weight(), -4);
    let g = post_w((pre_w((3, out("x"))), 10));
    assert_eq!(g.epsilon().as_ref().unwrap().weight(), 13);
}
