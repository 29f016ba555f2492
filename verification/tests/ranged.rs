use solomonoff::g::G;
use solomonoff::int_seq::{IntSeq, Symbols};
use solomonoff::n::N;
use solomonoff::e::E;
use solomonoff::p::P;
use solomonoff::parser_utils::{parse_range, post_w};
use solomonoff::pipeline::{ExternalStage, NoExternal, Pipeline};
use solomonoff::ranged_evaluation::{new_output_buffer, StateToIndexTable};
use solomonoff::ranged_graph::{Range, RangedGraph, Trans, Transition, Transitions};
use solomonoff::ranged_optimisation::{collect_breakpoints, optimise, order_by_from, sorted_insert};
use solomonoff::submatch::{submatch, validate_submatch_markers, KeepRegion, Matcher, MID};
use solomonoff::v::V;

fn lit(input: &str, output: &str) -> G {
    G::new_from_string(input, V::UNKNOWN).concat(G::new_from_output_string(IntSeq::from(output)))
}

fn ranged(input: &str, output: &str) -> RangedGraph {
    lit(input, output).optimise_graph()
}

#[test]
fn g_test_1() {
    let g = G::new_from_string("a", V::UNKNOWN);
    let r = g.optimise_graph();
    let y = r.evaluate_to_string("a");
    assert!(y.is_some());
    let y = y.unwrap();
    assert_eq!(y, String::from(""));
}

#[test]
fn g_test_2() {
    let g = G::new_from_reflected_string("abc", V::UNKNOWN);
    let r = g.optimise_graph();
    println!("{}", r.serialise_att());
    let y = r.evaluate_to_string("a");
    assert!(y.is_none());
    let y = r.evaluate_to_string("abc");
    assert!(y.is_some());
    let y = y.unwrap();
    assert_eq!(y, String::from("abc"));
}

#[test]
fn g_test_3() {
    let g = G::new_from_output_string(IntSeq::from("abc"));
    let r = g.optimise_graph();
    println!("{}", r.serialise_att());
    let y = r.evaluate_to_string("a");
    assert!(y.is_none());
    let y = r.evaluate_to_string("");
    assert!(y.is_some());
    let y = y.unwrap();
    assert_eq!(y, String::from("abc"));
}

#[test]
fn breakpoints_are_sorted_and_distinct() {
    let mut points = vec![u32::MAX];
    for x in [5, 3, 5, 9, 3, 1] {
        sorted_insert(&mut points, x);
    }
    assert_eq!(points, vec![1, 3, 5, 9, u32::MAX]);
    let edges = vec![
        (E::new_neutral(4, 9), 0),
        (E::new_neutral(0, 4), 0),
        (E::new_neutral(2, u32::MAX), 0),
        (E::new_neutral(4, 6), 0),
    ];
    assert_eq!(collect_breakpoints(&edges), vec![2, 4, 6, 9, u32::MAX]);
    // by the beginning of the interval, and by place among edges that begin together
    assert_eq!(order_by_from(&edges), vec![1, 2, 0, 3]);
    assert_eq!(collect_breakpoints(&vec![]), vec![u32::MAX]);
}

#[test]
fn ranges_cover_every_symbol() {
    let edges = vec![
        (E::new(4, 9, P::new(1, IntSeq::from("a"))), 0),
        (E::new(0, 4, P::new(2, IntSeq::from("b"))), 1),
        (E::new(2, 6, P::new(3, IntSeq::from("c"))), 0),
    ];
    let table = optimise(&edges, &vec![7, 8]);
    assert!(table.is_full_sigma_covered());
    let inputs: Vec<u32> = (0..table.len()).map(|i| table.get(i).input()).collect();
    assert_eq!(inputs, vec![2, 4, 6, 9, u32::MAX]);
    let weights = |x: u32| -> Vec<i32> { table.binary_search(x).iter().map(|t| t.weight()).collect() };
    assert_eq!(weights(1), vec![2]);
    assert_eq!(weights(2), vec![2]);
    assert_eq!(weights(3), vec![2, 3]);
    assert_eq!(weights(4), vec![2, 3]);
    assert_eq!(weights(5), vec![3, 1]);
    assert_eq!(weights(6), vec![3, 1]);
    assert_eq!(weights(7), vec![1]);
    assert_eq!(weights(9), vec![1]);
    assert_eq!(weights(10), Vec::<i32>::new());
    assert_eq!(weights(u32::MAX), Vec::<i32>::new());
    assert_eq!(table.binary_search_index(5), 2);
    assert_eq!(table.binary_search(1)[0].target().unwrap().get(), 8);
    assert_eq!(table.last().unwrap().input(), u32::MAX);
    // no edges at all: one empty range
    let blank = optimise(&vec![], &vec![]);
    assert_eq!(blank.len(), 1);
    assert!(blank.get(0).edges().is_empty());
    assert!(blank.is_full_sigma_covered());
    // an edge that reaches the greatest symbol
    let top = optimise(&vec![(E::new_neutral(0, u32::MAX), 0)], &vec![1]);
    assert_eq!(top.len(), 1);
    assert_eq!(top.binary_search(u32::MAX).len(), 1);
}

#[test]
fn tables_that_do_not_cover_are_told_apart() {
    let mut t = Transitions::with_capacity(2);
    assert!(!t.is_full_sigma_covered());
    t.push(Range::empty(5));
    assert!(!t.is_full_sigma_covered());
    t.push(Range::new(u32::MAX, vec![Transition::neutral(None)]));
    assert!(t.is_full_sigma_covered());
    assert_eq!(t.get(1).transition(0).weight(), 0);
    t.push(Range::empty(u32::MAX));
    assert!(!t.is_full_sigma_covered());
    let mut zero = Transitions::with_capacity(1);
    zero.push(Range::empty(0));
    zero.push(Range::empty(u32::MAX));
    assert!(!zero.is_full_sigma_covered());
}

#[test]
fn every_state_of_a_ranged_graph_covers_every_symbol() {
    let g = lit("ab", "x").union(parse_range("a-z]", V::UNKNOWN).unwrap(), V::UNKNOWN).unwrap();
    let g = g.kleene(V::UNKNOWN).unwrap();
    let (r, order) = g.optimise_and_collect_graph();
    assert_eq!(r.len(), order.len() + 1);
    assert_eq!(r.init().get(), 0);
    for t in r.graph() {
        assert!(t.is_full_sigma_covered());
        let mut last = 0;
        for i in 0..t.len() {
            assert!(t.get(i).input() > last);
            last = t.get(i).input();
            for e in t.get(i).edges() {
                assert!(e.target().map_or(true, |s| s.get() < r.len()));
            }
        }
        assert_eq!(last, u32::MAX);
    }
    assert_eq!(*r.index_to_state(r.init()), V::UNKNOWN);
    assert!(r.accepting(r.init()).is_some());
    assert!(r.transitions(r.init()).len() >= 1);
}

#[test]
fn evaluation_boundaries() {
    // the empty input
    assert_eq!(ranged("a", "x").evaluate_to_string(""), None);
    assert_eq!(G::new_neutral_epsilon().optimise_graph().evaluate_to_string(""), Some(String::new()));
    // a graph of an epsilon only
    let eps = G::new_from_output_string(IntSeq::from("e")).optimise_graph();
    assert_eq!(eps.len(), 1);
    assert_eq!(eps.evaluate_to_string(""), Some(String::from("e")));
    assert_eq!(eps.evaluate_to_string("a"), None);
    // a graph without an accepting state
    let mut g = G::new_from_string("a", V::UNKNOWN);
    g.set_outgoing(vec![]);
    let r = g.optimise_graph();
    assert_eq!(r.evaluate_to_string("a"), None);
    assert_eq!(r.evaluate_to_string(""), None);
    // the empty graph
    assert_eq!(G::new_empty().optimise_graph().evaluate_to_string(""), None);
    // a single symbol, and the greatest symbol
    let top = G::new_from_ranges(&[(0x10FFFE, u32::MAX)], V::UNKNOWN).optimise_graph();
    let mut table = top.make_state_to_index_table();
    assert_eq!(top.evaluate_tabular(&mut table, &[u32::MAX]), Some(vec![]));
    assert_eq!(top.evaluate_tabular(&mut table, &[0x10FFFF]), Some(vec![]));
    assert_eq!(top.evaluate_tabular(&mut table, &[0x10FFFE]), None);
    assert_eq!(top.evaluate_to_string("\u{10FFFF}"), Some(String::new()));
}

#[test]
fn reflection_markers_stand_for_the_input() {
    // an output of reflection markers only
    let g = G::new_from_output_string(IntSeq::from("\0\0")).concat(parse_range("a-c]", V::UNKNOWN).unwrap());
    let r = g.optimise_graph();
    assert_eq!(r.evaluate_to_string("b"), Some(String::from("bb")));
    assert_eq!(r.evaluate_to_string("d"), None);
    // a reflection marker in the final output stands for nothing
    let f = G::new_from_string("a", V::UNKNOWN).concat(G::new_from_output_string(IntSeq::from("x\0y")));
    assert_eq!(f.optimise_graph().evaluate_to_string("a"), Some(String::from("xy")));
    let e = G::new_from_output_string(IntSeq::from("\0")).optimise_graph();
    assert_eq!(e.evaluate_to_string(""), Some(String::new()));
}

#[test]
fn evaluation_prefers_the_greater_weight_and_the_first_edge() {
    let heavy = post_w((lit("a", "h"), 5));
    let light = post_w((lit("a", "l"), -5));
    let r = light.union(heavy, V::UNKNOWN).unwrap().optimise_graph();
    assert_eq!(r.evaluate_to_string("a"), Some(String::from("h")));
    // the least weight is a weight like any other
    let least = post_w((lit("a", "m"), i32::MIN)).optimise_graph();
    assert_eq!(least.evaluate_to_string("a"), Some(String::from("m")));
    // two edges of one weight into one state: the first stays
    let mut g = G::new_from_string("a", V::UNKNOWN);
    g.incoming_mut().push((E::new(96, 97, P::new(0, IntSeq::from("second"))), 0));
    assert_eq!(g.optimise_graph().evaluate_to_string("a"), Some(String::new()));
}

#[test]
fn evaluation_does_not_depend_on_the_scratchpad() {
    let r = lit("ab", "x").union(lit("ac", "y"), V::UNKNOWN).unwrap().optimise_graph();
    let mut clean = r.make_state_to_index_table();
    let mut dirty = StateToIndexTable(vec![0, 1, 2, 3, 4, 5, 6, 7, 8]);
    let mut wild = StateToIndexTable(vec![usize::MAX; 16]);
    r.ensure_length(&mut dirty);
    for input in [vec![97, 98], vec![97, 99], vec![97], vec![], vec![97, 98, 99]] {
        let a = r.evaluate_tabular(&mut clean, &input);
        assert_eq!(a, r.evaluate_tabular(&mut dirty, &input));
        assert_eq!(a, r.evaluate_tabular(&mut wild, &input));
        assert_eq!(a, r.evaluate_tabular(&mut dirty, &input));
    }
    assert_eq!(r.evaluate_tabular(&mut wild, &[97, 99]), Some(vec![121]));
    assert_eq!(r.evaluate_to_int_seq("ab"), Some(IntSeq::from("x")));
    let mut small = StateToIndexTable::new(0);
    small.ensure_length(r.len());
    assert!(small.len() >= r.len());
    assert_eq!(new_output_buffer(8), vec![0u32; 8]);
    assert!(new_output_buffer(0).is_empty());
}

#[test]
fn serialise_att_lists_transitions_and_accepting_states() {
    let r = post_w((lit("a", "x"), 3)).optimise_graph();
    assert_eq!(r.serialise_att(), "0 1 a 0 \n1 3 x\n");
    let range = parse_range("a-c]", V::UNKNOWN).unwrap().optimise_graph();
    assert_eq!(range.serialise_att(), "0 1 a-c 0 \n1 0 \n");
    let eps = G::new_from_output_string(IntSeq::from("e")).optimise_graph();
    assert_eq!(eps.serialise_att(), "0 0 e\n");
}

struct Upper {}

impl ExternalStage for Upper {
    fn model(&self, _input: Symbols) -> Option<Symbols> {
        unreachable!("a model stands in contracts only")
    }

    fn apply(&self, input: &Vec<u32>, output: &mut Vec<u32>) -> bool {
        if input.is_empty() {
            return false;
        }
        for &c in input {
            output.push(c - 32);
        }
        true
    }
}

fn pipe(input: &str, output: &str) -> Pipeline<NoExternal> {
    Pipeline::new(ranged(input, output), V::UNKNOWN)
}

#[test]
fn pipelines_built_by_calls() {
    // @f = 'aa'
    let f = Pipeline::<NoExternal>::new(G::new_from_string("aa", V::UNKNOWN).optimise_graph(), V::UNKNOWN);
    assert_eq!(f.evaluate_to_string("aa"), Some(String::from("")));
    assert!(f.evaluate_to_string("a").is_none());
    // @f = 'a':'b' ; 'b':'c'
    let f = pipe("a", "b").composition(pipe("b", "c"));
    assert_eq!(f.evaluate_to_string("a"), Some(String::from("c")));
    assert!(f.evaluate_to_string("aa").is_none());
    assert!(f.evaluate_to_string("").is_none());
    // @f = 'a':'b' ; 'b':'c' ; 'c':'d', however it is grouped
    let f = pipe("a", "b").composition(pipe("b", "c")).composition(pipe("c", "d"));
    assert_eq!(f.evaluate_to_string("a"), Some(String::from("d")));
    assert!(f.evaluate_to_string("aa").is_none());
    assert!(f.evaluate_to_string("").is_none());
    let f = pipe("a", "b").composition(pipe("b", "c").composition(pipe("c", "d")));
    assert_eq!(f.evaluate_to_string("a"), Some(String::from("d")));
    assert!(f.evaluate_to_string("aa").is_none());
    assert!(f.evaluate_to_string("").is_none());
    // @f = @a ; @b ; @c || @d
    let f = pipe("a", "b").composition(pipe("b", "c")).composition(pipe("c", "d")).alternative(pipe("d", "e"));
    assert_eq!(f.evaluate_to_string("a"), Some(String::from("d")));
    assert_eq!(f.evaluate_to_string("d"), Some(String::from("e")));
    for rejected in ["aa", "", "b", "c", "e"] {
        assert!(f.evaluate_to_string(rejected).is_none());
    }
}

#[test]
fn scenario_pipeline() {
    let f = pipe("a", "b").composition(pipe("b", "c"));
    assert_eq!(f.evaluate_to_string("a"), Some(String::from("c")));
    assert_eq!(f.evaluate_to_string("b"), None);
    assert_eq!(f.evaluate_to_string(""), None);
    assert_eq!(f.evaluate_to_int_seq("a"), Some(IntSeq::from("c")));
}

#[test]
fn pipelines_know_their_largest_transducer() {
    let small = pipe("a", "b");
    let large = pipe("abcd", "e");
    assert_eq!(small.max_states(), 2);
    assert_eq!(large.max_states(), 5);
    assert_eq!(Pipeline::<Upper>::external(Upper {}, V::UNKNOWN).max_states(), 0);
    let both = pipe("a", "b").composition(pipe("bbbb", "c"));
    assert_eq!(both.max_states(), 5);
    let either = pipe("a", "b").alternative(pipe("bbbb", "c"));
    assert_eq!(either.max_states(), 5);
    let mut table = either.make_state_to_index_table();
    assert_eq!(table.len(), 5);
    assert_eq!(either.evaluate_tabular(&mut table, &[98, 98, 98, 98]), Some(vec![99]));
    let mut short = StateToIndexTable::new(1);
    either.ensure_length(&mut short);
    assert!(short.len() >= 5);
}

#[test]
fn pipelines_with_buffers_and_external_stages() {
    let f = Pipeline::new(ranged("ab", "cd"), V::UNKNOWN)
        .composition(Pipeline::external(Upper {}, V::UNKNOWN));
    let mut table = f.make_state_to_index_table();
    assert_eq!(f.evaluate_tabular(&mut table, &[97, 98]), Some(vec![67, 68]));
    assert_eq!(f.evaluate_tabular(&mut table, &[97]), None);
    // the buffers hold the symbols in the opposite order
    let mut input = vec![98, 97];
    let mut output = Vec::new();
    assert!(f.evaluate_with_buffer(&mut table, &mut output, &mut input));
    assert_eq!(output, vec![68, 67]);
    let mut input = vec![97, 98];
    assert!(!f.evaluate_with_buffer(&mut table, &mut output, &mut input));
    assert!(output.is_empty());
    // an external stage that rejects makes the alternative run
    let g = Pipeline::external(Upper {}, V::UNKNOWN)
        .alternative(Pipeline::new(G::new_neutral_epsilon().optimise_graph(), V::UNKNOWN));
    let mut table = g.make_state_to_index_table();
    assert_eq!(g.evaluate_tabular(&mut table, &[]), Some(vec![]));
    assert_eq!(g.evaluate_tabular(&mut table, &[97]), Some(vec![65]));
    assert!(!NoExternal {}.apply(&vec![1], &mut Vec::new()));
}

#[test]
fn submatch_markers_are_checked() {
    let (a, b) = (MID + 1, MID + 2);
    assert!(validate_submatch_markers(&[]));
    assert!(validate_submatch_markers(&[1, 2, 3]));
    assert!(validate_submatch_markers(&[a, 1, a]));
    assert!(validate_submatch_markers(&[a, 1, b, 2, b, a, 3]));
    assert!(validate_submatch_markers(&[a, a, a, a]));
    assert!(validate_submatch_markers(&[a, 1]));
    assert!(validate_submatch_markers(&[MID, 5]));
    assert!(!validate_submatch_markers(&[b, a]));
    assert!(!validate_submatch_markers(&[a, b, 1, a]));
}

struct Bracket {}

impl Matcher for Bracket {
    fn matched(&self, _group: u32, _region: Symbols) -> Option<Symbols> {
        unreachable!("a model stands in contracts only")
    }

    fn apply(&self, group: u32, region: &Vec<u32>, out: &mut Vec<u32>) -> bool {
        if region.contains(&33) {
            return false;
        }
        if group != 0 {
            out.push(40);
        }
        out.extend(region.iter());
        if group != 0 {
            out.push(41);
        }
        true
    }
}

#[test]
fn submatch_hands_groups_to_the_matcher() {
    let (a, b) = (MID + 1, MID + 2);
    let mut out = Vec::new();
    assert!(submatch(&[1, a, 2, b, 3, b, 4, a, 5], &mut out, &Bracket {}));
    assert_eq!(out, vec![1, 40, 2, 40, 3, 41, 4, 41, 5]);
    let mut out = Vec::new();
    assert!(submatch(&[], &mut out, &Bracket {}));
    assert!(out.is_empty());
    let mut out = Vec::new();
    assert!(!submatch(&[1, a, 33, a], &mut out, &Bracket {}));
    let mut out = Vec::new();
    assert!(!submatch(&[33], &mut out, &Bracket {}));
    let mut out = Vec::new();
    assert!(submatch(&[7, a, 8, a, a, a], &mut out, &KeepRegion {}));
    assert_eq!(out, vec![7, 8]);
    let mut kept = Vec::new();
    assert!(KeepRegion {}.apply(a, &vec![1, 2], &mut kept));
    assert_eq!(kept, vec![1, 2]);
}

#[test]
fn nodes_of_a_graph_become_states() {
    let g = lit("ab", "x");
    let (r, order) = g.optimise_and_collect_graph();
    assert_eq!(order, vec![0, 1]);
    assert_eq!(r.len(), 3);
    assert_eq!(N::outgoing(0, &g.pool).len(), 1);
    assert_eq!(r.accepting(r.transitions(r.init()).binary_search(97)[0].target().unwrap()).is_none(), true);
}
