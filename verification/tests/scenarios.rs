use solomonoff::g::G;
use solomonoff::int_seq::IntSeq;
use solomonoff::parser_utils::{parse_range, post_w};
use solomonoff::ranged_graph::RangedGraph;
use solomonoff::v::V;

fn lit(input: &str, output: &str) -> G {
    G::new_from_string(input, V::UNKNOWN).concat(G::new_from_output_string(IntSeq::from(output)))
}

fn accepts(r: &RangedGraph, input: &str, output: &str) {
    assert_eq!(r.evaluate_to_string(input), Some(String::from(output)));
}

fn rejects(r: &RangedGraph, input: &str) {
    assert_eq!(r.evaluate_to_string(input), None);
}

#[test]
fn scenario_plain_string() {
    let g = G::new_from_string("aa", V::UNKNOWN);
    let r = g.optimise_graph();
    accepts(&r, "aa", "");
    rejects(&r, "a");
    rejects(&r, "");
    rejects(&r, "aab");
}

#[test]
fn scenario_kleene_of_union() {
    let g = lit("aa", "yy").union(lit("bb", "xx"), V::UNKNOWN).unwrap().kleene(V::UNKNOWN).unwrap();
    let r = g.optimise_graph();
    accepts(&r, "", "");
    accepts(&r, "aa", "yy");
    accepts(&r, "bb", "xx");
    accepts(&r, "aabbaa", "yyxxyy");
    rejects(&r, "a");
    rejects(&r, "aba");
    rejects(&r, "b");
}

#[test]
fn scenario_higher_weight_wins() {
    let g = post_w((lit("a", "b"), 1)).union(post_w((lit("a", "c"), 2)), V::UNKNOWN).unwrap();
    let r = g.optimise_graph();
    accepts(&r, "a", "c");
    rejects(&r, "aa");
    rejects(&r, "");
    let g = post_w((lit("a", "c"), 2)).union(post_w((lit("a", "b"), 1)), V::UNKNOWN).unwrap();
    let r = g.optimise_graph();
    accepts(&r, "a", "c");
    let g = post_w((lit("a", "b"), 1)).union(post_w((lit("a", "c"), -2)), V::UNKNOWN).unwrap();
    let r = g.optimise_graph();
    accepts(&r, "a", "b");
}

#[test]
fn scenario_reflection_with_override() {
    let reflect = G::new_from_output_string_literal(V::UNKNOWN, "\\0").unwrap();
    let letters = parse_range("a-z ]", V::UNKNOWN).unwrap();
    let copy = reflect.concat(letters);
    let special = post_w((lit("xx", "010"), 2));
    let g = copy.union(special, V::UNKNOWN).unwrap().kleene(V::UNKNOWN).unwrap();
    let r = g.optimise_graph();
    accepts(&r, "a", "a");
    accepts(&r, "", "");
    accepts(&r, "xx", "010");
    accepts(&r, "hello", "hello");
    accepts(&r, "helxxlo", "hel010lo");
    accepts(&r, "xxxx", "010010");
    rejects(&r, "0");
    rejects(&r, "[");
    rejects(&r, "-");
}
