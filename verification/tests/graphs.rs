use solomonoff::collect::NodeSet;
use solomonoff::compilation_error::CompErr;
use solomonoff::e::{FullEdge, E};
use solomonoff::g::G;
use solomonoff::int_seq::{decrement, increment, IntSeq, REFLECT};
use solomonoff::n::N;
use solomonoff::p::{is_neutral, PartialEdge, P};
use solomonoff::pool::Pool;
use solomonoff::v::V;

fn p(weight: i32, output: &str) -> P {
    P::new(weight, IntSeq::from(output))
}

#[test]
fn symbols_step_and_stop_at_the_ends() {
    assert_eq!(decrement(5), 4);
    assert_eq!(decrement(REFLECT), REFLECT);
    assert_eq!(increment(5), 6);
    assert_eq!(increment(u32::MAX), u32::MAX);
}

#[test]
fn partial_edges_multiply() {
    let a = p(2, "ab");
    let b = p(-5, "c");
    let c = a.multiply(&b);
    assert_eq!(c.weight(), -3);
    assert_eq!(c.output(), &IntSeq::from("abc"));
    let d = b.multiply(&a);
    assert_eq!(d.output(), &IntSeq::from("cab"));
    let mut e = p(1, "x");
    e.multiply_in_place(&p(1, "y"));
    assert_eq!(e.weight(), 2);
    assert_eq!(e.output(), &IntSeq::from("xy"));
}

#[test]
fn partial_edge_weights_wrap() {
    let c = p(i32::MAX, "").multiply(&p(1, ""));
    assert_eq!(c.weight(), i32::MIN);
}

#[test]
fn multiplication_is_associative_and_has_a_neutral_element() {
    let (a, b, c) = (p(1, "a"), p(2, "b"), p(3, "c"));
    let left = a.multiply(&b).multiply(&c);
    let right = a.multiply(&b.multiply(&c));
    assert_eq!(left.weight(), right.weight());
    assert_eq!(left.output(), right.output());
    let n = P::neutral();
    assert!(is_neutral(&n));
    assert!(!is_neutral(&a));
    assert!(!is_neutral(&p(0, "x")));
    assert!(!is_neutral(&p(1, "")));
    assert_eq!(a.multiply(&n).output(), a.output());
    assert_eq!(n.multiply(&a).weight(), a.weight());
    let (w, o) = a.destruct();
    assert_eq!((w, o), (1, IntSeq::from("a")));
}

#[test]
fn edges_act() {
    let e = E::new(3, 9, p(1, "a"));
    assert_eq!((e.from_exclusive(), e.to_inclusive()), (3, 9));
    let r = e.right_action(&p(2, "b"));
    assert_eq!(r.weight(), 3);
    assert_eq!(r.output(), &IntSeq::from("ab"));
    assert_eq!((r.from_exclusive(), r.to_inclusive()), (3, 9));
    let l = p(2, "b").left_action(&e);
    assert_eq!(l.output(), &IntSeq::from("ba"));
    let s = E::new_neutral_from_symbol(97);
    assert_eq!((s.from_exclusive(), s.to_inclusive(), s.weight()), (96, 97, 0));
    assert!(s.output().is_empty());
    let t = E::new_from_symbol(98, p(4, "z"));
    assert_eq!((t.from_exclusive(), t.to_inclusive(), t.partial().weight()), (97, 98, 4));
    let mut u = E::new_neutral(1, 2);
    u.set_partial(p(7, "q"));
    assert_eq!(u.partial().output(), &IntSeq::from("q"));
    assert_eq!(u.clone().weight(), 7);
}

#[test]
fn pool_names_nodes_by_index() {
    let mut pool = Pool::new();
    assert!(pool.is_empty());
    let a = N::new(V::UNKNOWN, &mut pool);
    let b = N::with_capacity(3, V::Position(4), &mut pool);
    assert_eq!((a, b), (0, 1));
    assert!(pool.contains_n(b));
    assert!(!pool.contains_n(2));
    N::push(a, (E::new_neutral(0, 5), b), &mut pool);
    assert_eq!(N::outgoing(a, &pool).len(), 1);
    assert_eq!(N::outgoing(a, &pool)[0].1, b);
    assert_eq!(*N::meta(b, &pool), V::Position(4));
    let c = N::shallow_copy(b, &mut pool);
    assert_eq!(c, 2);
    assert_eq!(*N::meta(c, &pool), V::Position(4));
    assert_eq!(pool.len(), 3);
    assert_eq!(pool.nodes[0].get_outgoing().len(), 1);
    assert_eq!(*pool.nodes[1].get_meta(), V::Position(4));
    pool.clear();
    assert!(pool.is_empty());
}

fn diamond() -> Pool {
    // 0 -> 1, 0 -> 2, 1 -> 3, 2 -> 3, 3 -> 0; the node 4 stands alone
    let mut pool = Pool::new();
    for _ in 0..5 {
        N::new(V::UNKNOWN, &mut pool);
    }
    N::push(0, (E::new_neutral(0, 1), 1), &mut pool);
    N::push(0, (E::new_neutral(1, 2), 2), &mut pool);
    N::push(1, (E::new_neutral(0, 1), 3), &mut pool);
    N::push(2, (E::new_neutral(0, 1), 3), &mut pool);
    N::push(3, (E::new_neutral(0, 1), 0), &mut pool);
    pool
}

#[test]
fn collect_finds_what_can_be_reached() {
    let pool = diamond();
    let depth = N::collect(true, 0, &pool);
    assert_eq!(depth[0], 0);
    let mut sorted = depth.clone();
    sorted.sort();
    assert_eq!(sorted, vec![0, 1, 2, 3]);
    let breadth = N::collect(false, 0, &pool);
    assert_eq!(breadth, vec![0, 1, 2, 3]);
    assert_eq!(N::collect(true, 4, &pool), vec![4]);
    let set = N::collect_all_to_set(false, 1, &pool);
    assert!(set.contains(0) && set.contains(3) && !set.contains(4));
    let mut both = NodeSet::new(5);
    N::collect_set(true, 4, &mut both, &pool);
    N::collect_set(true, 3, &mut both, &pool);
    assert_eq!(both.order.len(), 5);
    assert!(!both.insert(4));
}

#[test]
fn deep_clone_copies_what_can_be_reached() {
    let mut pool = diamond();
    let mut cloned = vec![None; 5];
    let copy = N::deep_clone(1, &mut cloned, &mut pool);
    assert_eq!(pool.len(), 9);
    assert_eq!(cloned[1], Some(copy));
    assert!(cloned[4].is_none());
    assert!(cloned[0].is_some() && cloned[2].is_some() && cloned[3].is_some());
    // the copy of 1 leads to the copy of 3, which leads to the copy of 0
    let to = N::outgoing(copy, &pool)[0].1;
    assert_eq!(Some(to), cloned[3]);
    assert_eq!(Some(N::outgoing(to, &pool)[0].1), cloned[0]);
    assert_eq!(N::outgoing(1, &pool)[0].1, 3);
}

#[test]
fn graphs_are_built() {
    let e = G::new_empty();
    assert!(e.is_empty());
    assert!(e.epsilon().is_none());
    let n = G::new_neutral_epsilon();
    assert!(!n.is_empty());
    assert!(is_neutral(n.epsilon().as_ref().unwrap()));
    let o = G::new_from_output_string(IntSeq::from("abc"));
    assert_eq!(o.epsilon().as_ref().unwrap().output(), &IntSeq::from("abc"));
    let s = G::new_from_symbol(97, V::Position(1));
    assert_eq!((s.incoming().len(), s.outgoing().len(), s.pool.len()), (1, 1, 1));
    assert_eq!(s.incoming()[0].0.to_inclusive(), 97);
    let g = G::new_from_string("abc", V::UNKNOWN);
    assert_eq!(g.pool.len(), 3);
    assert_eq!(g.incoming()[0].1, 0);
    assert_eq!(g.outgoing()[0].0, 2);
    assert_eq!(N::outgoing(0, &g.pool)[0].0.to_inclusive(), 98);
    assert!(G::new_from_string("", V::UNKNOWN).epsilon().is_some());
    let r = G::new_from_reflected_codepoints(&[120, 121], V::UNKNOWN);
    assert_eq!(r.incoming()[0].0.output(), &IntSeq::from("x"));
    let c = G::new_from_codepoints(&[120], V::UNKNOWN);
    assert!(c.incoming()[0].0.output().is_empty());
    let ranges = G::new_from_ranges(&[(96, 99), (47, 57)], V::UNKNOWN);
    assert_eq!(ranges.incoming().len(), 2);
    assert_eq!(ranges.incoming()[1].0.from_exclusive(), 47);
    let single = G::new_singleton(E::new_neutral(1, 2), p(3, "x"), V::UNKNOWN);
    assert_eq!(single.outgoing()[0].1.weight(), 3);
    let lit = G::new_from_string_literal("a\\nb", V::UNKNOWN);
    assert_eq!(lit.pool.len(), 3);
    assert_eq!(N::outgoing(0, &lit.pool)[0].0.to_inclusive(), 10);
    let rl = G::new_from_reflected_string_literal("\\t", V::UNKNOWN);
    assert_eq!(rl.incoming()[0].0.output(), &IntSeq::from("\t"));
    match G::new_from_output_string_literal(V::Position(7), "ab\\") {
        Err(CompErr::Parse(pos, m)) => {
            assert_eq!(pos, V::Position(7));
            assert_eq!(m, "String literal has dangling backslash");
        },
        _ => panic!("a backslash at the end must be refused"),
    }
}

#[test]
fn graph_parts_can_be_changed() {
    let mut g = G::new_from_string("a", V::UNKNOWN);
    g.set_epsilon(Some(p(1, "e")));
    assert_eq!(g.epsilon().as_ref().unwrap().weight(), 1);
    g.incoming_mut().push((E::new_neutral(1, 2), 0));
    assert_eq!(g.incoming().len(), 2);
    g.outgoing_mut().clear();
    assert!(g.outgoing().is_empty());
    g.set_outgoing(vec![(0, p(2, "f"))]);
    {
        let (eps, incoming) = g.epsilon_and_incoming();
        assert!(eps.is_some());
        incoming.pop();
    }
    {
        let (eps, outgoing) = g.epsilon_and_outgoing();
        assert!(eps.is_some());
        assert_eq!(outgoing.len(), 1);
    }
    let init = g.make_unique_initial_state(V::Position(9));
    assert_eq!(init.outgoing.len(), 1);
    assert_eq!(init.meta, V::Position(9));
    let finals = g.rip_out_outgoing();
    assert_eq!(finals[0].1.weight(), 2);
}

#[test]
fn clone_leaves_the_original_alone() {
    let g = G::new_from_string("ab", V::UNKNOWN);
    let mut c = g.clone();
    assert_eq!(c.pool.len(), g.pool.len());
    assert_eq!(c.incoming()[0].0.to_inclusive(), g.incoming()[0].0.to_inclusive());
    c.delete();
    assert!(c.is_empty());
    assert_eq!(c.pool.len(), 0);
    assert_eq!(g.pool.len(), 2);
    let r = g.optimise_graph();
    assert_eq!(r.evaluate_to_string("ab"), Some(String::new()));
    let copy = g.clone().optimise_graph();
    assert_eq!(copy.evaluate_to_string("ab"), Some(String::new()));
    assert_eq!(copy.evaluate_to_string("a"), None);
}

#[test]
fn collect_graph_finds_the_nodes_of_a_graph() {
    let g = G::new_from_string("abc", V::UNKNOWN);
    assert_eq!(g.collect_whole_graph(), vec![0, 1, 2]);
    assert_eq!(g.collect_graph().order.len(), 3);
    assert!(G::new_neutral_epsilon().collect_whole_graph().is_empty());
}
