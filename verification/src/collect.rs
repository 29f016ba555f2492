use crate::e::EView;
use crate::g::{edges_within, pool_closed, G};
use crate::n::{edges_view, NView, NodeId, N};
use crate::pool::Pool;
use vstd::prelude::*;

verus! {

/// Whether an edge leads from the node `a` to the node `b`.
pub open spec fn has_edge(pool: Seq<NView>, a: NodeId, b: NodeId) -> bool {
    a < pool.len() && exists|j: int|
        0 <= j < pool[a as int].outgoing.len() && (#[trigger] pool[a as int].outgoing[j]).1 == b
}

/// Whether each node of the path has an edge to the next.
pub open spec fn is_path(pool: Seq<NView>, path: Seq<NodeId>) -> bool {
    &&& path.len() > 0
    &&& forall|i: int| 0 <= i < path.len() - 1 ==> has_edge(pool, #[trigger] path[i], path[i + 1])
}

/// Whether the node `b` can be reached from the node `a` along edges.
pub open spec fn reachable(pool: Seq<NView>, a: NodeId, b: NodeId) -> bool {
    exists|path: Seq<NodeId>| #[trigger] is_path(pool, path) && path[0] == a && path.last() == b
}

/// A node reaches itself.
pub proof fn lemma_reachable_self(pool: Seq<NView>, a: NodeId)
    ensures
        reachable(pool, a, a),
{
    let path = seq![a];
    assert(is_path(pool, path));
    assert(path[0] == a && path.last() == a);
}

/// What can be reached can be left by one more edge.
pub proof fn lemma_reachable_step(pool: Seq<NView>, a: NodeId, b: NodeId, c: NodeId)
    requires
        reachable(pool, a, b),
        has_edge(pool, b, c),
    ensures
        reachable(pool, a, c),
{
    let path = choose|path: Seq<NodeId>| #[trigger]
        is_path(pool, path) && path[0] == a && path.last() == b;
    let longer = path.push(c);
    assert forall|i: int| 0 <= i < longer.len() - 1 implies has_edge(
        pool,
        #[trigger] longer[i],
        longer[i + 1],
    ) by {
        if i < path.len() - 1 {
            assert(has_edge(pool, path[i], path[i + 1]));
        }
    }
    assert(is_path(pool, longer));
    assert(longer[0] == a && longer.last() == c);
}

/// The number of entries that are not set.
pub open spec fn count_unset(seen: Seq<bool>) -> nat
    decreases seen.len(),
{
    if seen.len() == 0 {
        0
    } else {
        count_unset(seen.drop_last()) + if seen.last() {
            0nat
        } else {
            1nat
        }
    }
}

/// Setting an entry that was not set leaves one entry less that is not set.
pub proof fn lemma_count_unset_update(seen: Seq<bool>, i: int)
    requires
        0 <= i < seen.len(),
        !seen[i],
    ensures
        count_unset(seen.update(i, true)) + 1 == count_unset(seen),
    decreases seen.len(),
{
    let after = seen.update(i, true);
    if i == seen.len() - 1 {
        assert(after.drop_last() =~= seen.drop_last());
    } else {
        assert(after.drop_last() =~= seen.drop_last().update(i, true));
        lemma_count_unset_update(seen.drop_last(), i);
    }
}

/// What a set of collected nodes is: the nodes in the order in which they were
/// found, and for every node of the pool whether it is among them.
pub struct NodeSetView {
    pub order: Seq<NodeId>,
    pub seen: Seq<bool>,
}

impl NodeSetView {
    /// The set is one of nodes of a pool of `n` nodes: every node found is a
    /// node of the pool and is marked, no node was found twice, and every
    /// marked node was found.
    pub open spec fn wf(self, n: nat) -> bool {
        &&& self.seen.len() == n
        &&& forall|i: int|
            0 <= i < self.order.len() ==> (#[trigger] self.order[i]) < n && self.seen[self.order[i] as int]
        &&& forall|i: int, j: int|
            0 <= i < j < self.order.len() ==> (#[trigger] self.order[i]) != (
            #[trigger] self.order[j])
        &&& forall|k: int| 0 <= k < n && #[trigger] self.seen[k] ==> self.order.contains(k as usize)
        &&& self.order.len() + count_unset(self.seen) == n
    }

    /// With every node the set holds the nodes that its edges lead to.
    pub open spec fn closed(self, pool: Seq<NView>) -> bool {
        forall|k: int, j: int|
            0 <= k < pool.len() && self.seen[k] && 0 <= j < pool[k].outgoing.len() ==> self.seen[(
            #[trigger] pool[k].outgoing[j]).1 as int]
    }
}

/// No node stands twice in the order of a well-formed set.
pub proof fn lemma_order_no_duplicates(set: NodeSetView, n: nat)
    requires
        set.wf(n),
    ensures
        set.order.no_duplicates(),
{
    assert forall|i: int, j: int|
        0 <= i < set.order.len() && 0 <= j < set.order.len() && i != j implies set.order[i]
        != set.order[j] by {
        if i < j {
            assert(set.order[i] != set.order[j]);
        } else {
            assert(set.order[j] != set.order[i]);
        }
    }
}

/// A set of nodes of one pool, which remembers the order in which they came.
#[derive(Debug)]
pub struct NodeSet {
    pub order: Vec<NodeId>,
    pub seen: Vec<bool>,
}

impl View for NodeSet {
    type V = NodeSetView;

    open spec fn view(&self) -> NodeSetView {
        NodeSetView { order: self.order@, seen: self.seen@ }
    }
}

impl NodeSet {
    /// The empty set of nodes of a pool of `n` nodes.
    pub fn new(n: usize) -> (r: NodeSet)
        ensures
            r@.wf(n as nat),
            r@.order.len() == 0,
            forall|k: int| 0 <= k < n ==> !r@.seen[k],
    {
        let mut seen: Vec<bool> = Vec::with_capacity(n);
        let mut i: usize = 0;
        while i < n
            invariant
                i <= n,
                seen@.len() == i,
                count_unset(seen@) == i,
                forall|k: int| 0 <= k < i ==> !seen@[k],
            decreases n - i,
        {
            proof {
                assert(seen@.push(false).drop_last() =~= seen@);
            }
            seen.push(false);
            i = i + 1;
        }
        NodeSet { order: Vec::new(), seen }
    }

    /// Whether the node is in the set.
    pub fn contains(&self, n: NodeId) -> (r: bool)
        ensures
            r == (n < self@.seen.len() && self@.seen[n as int]),
    {
        n < self.seen.len() && self.seen[n]
    }

    /// Puts the node into the set and says whether it is new there.
    pub fn insert(&mut self, n: NodeId) -> (r: bool)
        requires
            old(self)@.wf(old(self)@.seen.len()),
            n < old(self)@.seen.len(),
        ensures
            r == !old(self)@.seen[n as int],
            final(self)@.wf(old(self)@.seen.len()),
            final(self)@.seen == old(self)@.seen.update(n as int, true),
            final(self)@.order == if r {
                old(self)@.order.push(n)
            } else {
                old(self)@.order
            },
    {
        if self.seen[n] {
            assert(self@.seen =~= old(self)@.seen.update(n as int, true));
            false
        } else {
            let ghost before = self@;
            self.seen[n] = true;
            self.order.push(n);
            proof {
                let after = self@;
                let len = before.seen.len();
                lemma_count_unset_update(before.seen, n as int);
                assert forall|i: int, j: int| 0 <= i < j < after.order.len() implies (
                #[trigger] after.order[i]) != (#[trigger] after.order[j]) by {
                    if j == before.order.len() {
                        assert(before.seen[before.order[i] as int]);
                    }
                }
                assert forall|k: int| 0 <= k < len && #[trigger] after.seen[k] implies after.order.contains(
                    k as usize,
                ) by {
                    if k == n {
                        assert(after.order[before.order.len() as int] == n);
                    } else {
                        assert(before.order.contains(k as usize));
                        let i = choose|i: int|
                            0 <= i < before.order.len() && before.order[i] == k as usize;
                        assert(after.order[i] == k as usize);
                    }
                }
            }
            true
        }
    }
}

impl N {
    /// Adds to `collected` every node that can be reached from `startpoint`
    /// and is not in it yet. Nodes are taken up depth first or breadth first.
    pub fn collect_set(
        depth_first_search: bool,
        startpoint: NodeId,
        collected: &mut NodeSet,
        pool: &Pool,
    )
        requires
            pool_closed(pool@),
            startpoint < pool@.len(),
            old(collected)@.wf(pool@.len()),
            old(collected)@.closed(pool@),
        ensures
            final(collected)@.wf(pool@.len()),
            final(collected)@.closed(pool@),
            final(collected)@.seen[startpoint as int],
            final(collected)@.order.len() >= old(collected)@.order.len(),
            final(collected)@.order.subrange(0, old(collected)@.order.len() as int) == old(
                collected,
            )@.order,
            !old(collected)@.seen[startpoint as int] ==> final(collected)@.order[old(
                collected,
            )@.order.len() as int] == startpoint,
            forall|k: int|
                0 <= k < pool@.len() && #[trigger] final(collected)@.seen[k] ==> old(
                    collected,
                )@.seen[k] || reachable(pool@, startpoint, k as usize),
    {
        let ghost nodes = pool@;
        let ghost start_view = collected@;
        let n = pool.len();
        if !collected.insert(startpoint) {
            assert(collected@.seen =~= start_view.seen);
            return ;
        }
        proof {
            lemma_reachable_self(nodes, startpoint);
            lemma_count_unset_update(start_view.seen, startpoint as int);
        }
        let mut pending: Vec<NodeId> = Vec::new();
        pending.push(startpoint);
        let mut head: usize = 0;
        proof {
            assert(collected@.seen =~= start_view.seen.update(startpoint as int, true));
            assert forall|k: int, j: int|
                0 <= k < n && collected@.seen[k] && 0 <= j < nodes[k].outgoing.len() implies (
            exists|i: int| head <= i < pending@.len() && pending@[i] == k) || collected@.seen[(
            #[trigger] nodes[k].outgoing[j]).1 as int] by {
                if k == startpoint {
                    assert(pending@[0] == k);
                } else {
                    assert(start_view.seen[k]);
                    assert(start_view.seen[nodes[k].outgoing[j].1 as int]);
                }
            }
        }
        loop
            invariant
                nodes == pool@,
                n == nodes.len(),
                pool_closed(nodes),
                startpoint < n,
                start_view.wf(n as nat),
                !start_view.seen[startpoint as int],
                head <= pending@.len(),
                depth_first_search ==> head == 0,
                collected@.wf(n as nat),
                collected@.seen[startpoint as int],
                collected@.order.len() > start_view.order.len(),
                collected@.order.subrange(0, start_view.order.len() as int) == start_view.order,
                collected@.order[start_view.order.len() as int] == startpoint,
                forall|i: int|
                    head <= i < pending@.len() ==> (#[trigger] pending@[i]) < n
                        && collected@.seen[pending@[i] as int] && !start_view.seen[pending@[i] as int],
                forall|k: int|
                    0 <= k < n && #[trigger] collected@.seen[k] ==> start_view.seen[k] || reachable(
                        nodes,
                        startpoint,
                        k as usize,
                    ),
                forall|k: int, j: int|
                    0 <= k < n && collected@.seen[k] && 0 <= j < nodes[k].outgoing.len() ==> (
                    exists|i: int| head <= i < pending@.len() && pending@[i] == k)
                        || collected@.seen[(#[trigger] nodes[k].outgoing[j]).1 as int],
            ensures
                head >= pending@.len(),
            decreases count_unset(collected@.seen), pending@.len() - head,
        {
            if head >= pending.len() {
                break ;
            }
            let ghost before_pop = pending@;
            let ghost head_before = head;
            let state = if depth_first_search {
                let last = pending.len() - 1;
                let s = pending[last];
                pending.truncate(last);
                assert(pending@ =~= before_pop.subrange(0, last as int));
                s
            } else {
                let s = pending[head];
                head = head + 1;
                s
            };
            let ghost rest = pending@;
            let ghost rest_head = head;
            let edges = N::outgoing(state, pool);
            let ghost at_pop = collected@;
            let mut j: usize = 0;
            proof {
                assert(reachable(nodes, startpoint, state));
                assert(pending@.subrange(0, rest.len() as int) =~= rest);
                assert forall|k: int, x: int|
                    0 <= k < n && k != state && collected@.seen[k] && 0 <= x
                        < nodes[k].outgoing.len() implies (exists|i: int|
                    head <= i < pending@.len() && pending@[i] == k) || collected@.seen[(
                #[trigger] nodes[k].outgoing[x]).1 as int] by {
                    if !collected@.seen[nodes[k].outgoing[x].1 as int] {
                        let i = choose|i: int|
                            head_before <= i < before_pop.len() && before_pop[i] == k;
                        assert(pending@[i] == k);
                    }
                }
            }
            while j < edges.len()
                invariant
                    j <= edges.len(),
                    nodes == pool@,
                    n == nodes.len(),
                    pool_closed(nodes),
                    startpoint < n,
                    state < n,
                    reachable(nodes, startpoint, state),
                    edges_view(edges@) == nodes[state as int].outgoing,
                    start_view.wf(n as nat),
                    !start_view.seen[startpoint as int],
                    head == rest_head,
                    head <= pending@.len(),
                    depth_first_search ==> head == 0,
                    rest.len() <= pending@.len(),
                    pending@.subrange(0, rest.len() as int) == rest,
                    collected@.wf(n as nat),
                    at_pop.seen.len() == n,
                    collected@.seen[startpoint as int],
                    collected@.seen[state as int],
                    collected@.order.len() > start_view.order.len(),
                    collected@.order.subrange(0, start_view.order.len() as int)
                        == start_view.order,
                    collected@.order[start_view.order.len() as int] == startpoint,
                    count_unset(collected@.seen) <= count_unset(at_pop.seen),
                    pending@.len() > rest.len() ==> count_unset(collected@.seen) < count_unset(
                        at_pop.seen,
                    ),
                    forall|i: int|
                        head <= i < pending@.len() ==> (#[trigger] pending@[i]) < n
                            && collected@.seen[pending@[i] as int]
                            && !start_view.seen[pending@[i] as int],
                    forall|k: int|
                        0 <= k < n && #[trigger] collected@.seen[k] ==> start_view.seen[k]
                            || reachable(nodes, startpoint, k as usize),
                    forall|x: int|
                        0 <= x < j ==> collected@.seen[(#[trigger] nodes[state as int].outgoing[x]).1 as int],
                    forall|k: int, x: int|
                        0 <= k < n && k != state && collected@.seen[k] && 0 <= x
                            < nodes[k].outgoing.len() ==> (exists|i: int|
                            head <= i < pending@.len() && pending@[i] == k)
                            || collected@.seen[(#[trigger] nodes[k].outgoing[x]).1 as int],
                decreases edges.len() - j,
            {
                let t = edges[j].1;
                proof {
                    assert(edges_within(nodes[state as int].outgoing, n as nat));
                    assert(nodes[state as int].outgoing[j as int].1 == t);
                    assert(t < n);
                }
                let ghost before = collected@;
                let ghost pending_before = pending@;
                if collected.insert(t) {
                    pending.push(t);
                    proof {
                        lemma_count_unset_update(before.seen, t as int);
                        assert(has_edge(nodes, state, t));
                        lemma_reachable_step(nodes, startpoint, state, t);
                        assert(pending@.subrange(0, rest.len() as int) =~= rest);
                        assert(collected@.order.subrange(0, start_view.order.len() as int)
                            =~= start_view.order);
                        assert(!start_view.seen[t as int]) by {
                            if start_view.seen[t as int] {
                                assert(start_view.order.contains(t));
                                let y = choose|y: int|
                                    0 <= y < start_view.order.len() && start_view.order[y] == t;
                                assert(before.order.subrange(
                                    0,
                                    start_view.order.len() as int,
                                )[y] == t);
                                assert(before.seen[before.order[y] as int]);
                            }
                        }
                        assert forall|k: int, x: int|
                            0 <= k < n && k != state && collected@.seen[k] && 0 <= x
                                < nodes[k].outgoing.len() implies (exists|i: int|
                            head <= i < pending@.len() && pending@[i] == k)
                            || collected@.seen[(#[trigger] nodes[k].outgoing[x]).1 as int] by {
                            if k == t {
                                assert(pending@[pending_before.len() as int] == k);
                            } else {
                                assert(before.seen[k]);
                                if !before.seen[nodes[k].outgoing[x].1 as int] {
                                    let i = choose|i: int|
                                        head <= i < pending_before.len() && pending_before[i] == k;
                                    assert(pending@[i] == k);
                                }
                            }
                        }
                    }
                } else {
                    assert(collected@.seen =~= before.seen);
                }
                j = j + 1;
            }
            proof {
                assert forall|k: int, x: int|
                    0 <= k < n && collected@.seen[k] && 0 <= x < nodes[k].outgoing.len() implies (
                exists|i: int| head <= i < pending@.len() && pending@[i] == k)
                    || collected@.seen[(#[trigger] nodes[k].outgoing[x]).1 as int] by {
                    if k == state {
                        assert(collected@.seen[nodes[state as int].outgoing[x].1 as int]);
                    }
                }
            }
        }
        proof {
            assert forall|k: int, j: int|
                0 <= k < nodes.len() && collected@.seen[k] && 0 <= j
                    < nodes[k].outgoing.len() implies collected@.seen[(
            #[trigger] nodes[k].outgoing[j]).1 as int] by {
                assert(!(exists|i: int| head <= i < pending@.len() && pending@[i] == k));
            }
        }
    }

    /// The nodes that can be reached from `startpoint`, each once, in the order
    /// in which they are found; the first of them is `startpoint` itself.
    pub fn collect(depth_first_search: bool, startpoint: NodeId, pool: &Pool) -> (r: Vec<NodeId>)
        requires
            pool_closed(pool@),
            startpoint < pool@.len(),
        ensures
            r@.len() > 0,
            r@[0] == startpoint,
            r@.no_duplicates(),
            forall|k: NodeId| r@.contains(k) <==> k < pool@.len() && reachable(pool@, startpoint, k),
    {
        let set = N::collect_all_to_set(depth_first_search, startpoint, pool);
        proof {
            lemma_order_no_duplicates(set@, pool@.len());
            lemma_closed_holds_reachable(pool@, set@, startpoint);
            assert forall|k: NodeId| set@.order.contains(k) implies k < pool@.len() && reachable(
                pool@,
                startpoint,
                k,
            ) by {
                let i = choose|i: int| 0 <= i < set@.order.len() && set@.order[i] == k;
                assert(set@.seen[set@.order[i] as int]);
            }
            assert forall|k: NodeId| k < pool@.len() && reachable(
                pool@,
                startpoint,
                k,
            ) implies set@.order.contains(k) by {
                assert(set@.seen[k as int]);
            }
        }
        set.order
    }

    /// The set of the nodes that can be reached from `startpoint`.
    pub fn collect_all_to_set(depth_first_search: bool, startpoint: NodeId, pool: &Pool) -> (r:
        NodeSet)
        requires
            pool_closed(pool@),
            startpoint < pool@.len(),
        ensures
            r@.wf(pool@.len()),
            r@.closed(pool@),
            r@.order.len() > 0,
            r@.order[0] == startpoint,
            forall|k: int|
                0 <= k < pool@.len() && #[trigger] r@.seen[k] ==> reachable(
                    pool@,
                    startpoint,
                    k as usize,
                ),
    {
        let mut collected = NodeSet::new(pool.len());
        N::collect_set(depth_first_search, startpoint, &mut collected, pool);
        collected
    }
}

/// A closed set that holds a node holds whatever can be reached from it.
pub proof fn lemma_closed_holds_reachable(pool: Seq<NView>, set: NodeSetView, a: NodeId)
    requires
        pool_closed(pool),
        set.wf(pool.len()),
        set.closed(pool),
        a < pool.len(),
        set.seen[a as int],
    ensures
        forall|b: NodeId| b < pool.len() && reachable(pool, a, b) ==> set.seen[b as int],
{
    assert forall|b: NodeId| b < pool.len() && reachable(pool, a, b) implies set.seen[b as int] by {
        let path = choose|path: Seq<NodeId>| #[trigger]
            is_path(pool, path) && path[0] == a && path.last() == b;
        lemma_path_in_closed(pool, set, path, path.len() - 1);
    }
}

/// A closed set that holds the first node of a path holds every node of it.
pub proof fn lemma_path_in_closed(pool: Seq<NView>, set: NodeSetView, path: Seq<NodeId>, i: int)
    requires
        pool_closed(pool),
        set.wf(pool.len()),
        set.closed(pool),
        is_path(pool, path),
        path[0] < pool.len(),
        set.seen[path[0] as int],
        0 <= i < path.len(),
    ensures
        path[i] < pool.len(),
        set.seen[path[i] as int],
    decreases i,
{
    if i > 0 {
        lemma_path_in_closed(pool, set, path, i - 1);
        assert(has_edge(pool, path[i - 1], path[i]));
        let a = path[i - 1];
        let j = choose|j: int|
            0 <= j < pool[a as int].outgoing.len() && (#[trigger] pool[a as int].outgoing[j]).1
                == path[i];
        assert(edges_within(pool[a as int].outgoing, pool.len()));
        assert(set.seen[pool[a as int].outgoing[j].1 as int]);
    }
}

impl G {
    /// The set of the nodes that can be reached from a way into the graph.
    pub fn collect_graph(&self) -> (r: NodeSet)
        requires
            self@.wf(),
        ensures
            r@.wf(self@.nodes.len()),
            r@.closed(self@.nodes),
            forall|i: int|
                0 <= i < self@.incoming.len() ==> r@.seen[(#[trigger] self@.incoming[i]).1 as int],
            forall|k: int|
                0 <= k < self@.nodes.len() && #[trigger] r@.seen[k] ==> exists|i: int|
                    0 <= i < self@.incoming.len() && reachable(
                        self@.nodes,
                        (#[trigger] self@.incoming[i]).1,
                        k as usize,
                    ),
    {
        let mut collected = NodeSet::new(self.pool.len());
        let mut i: usize = 0;
        while i < self.incoming.len()
            invariant
                i <= self.incoming.len(),
                self@.wf(),
                collected@.wf(self@.nodes.len()),
                collected@.closed(self@.nodes),
                forall|x: int|
                    0 <= x < i ==> collected@.seen[(#[trigger] self@.incoming[x]).1 as int],
                forall|k: int|
                    0 <= k < self@.nodes.len() && #[trigger] collected@.seen[k] ==> exists|x: int|
                        0 <= x < i && reachable(
                            self@.nodes,
                            (#[trigger] self@.incoming[x]).1,
                            k as usize,
                        ),
            decreases self.incoming.len() - i,
        {
            let v = self.incoming[i].1;
            let ghost before = collected@;
            proof {
                assert(self@.incoming[i as int].1 == v);
            }
            N::collect_set(true, v, &mut collected, &self.pool);
            proof {
                assert forall|x: int| 0 <= x < i + 1 implies collected@.seen[(
                #[trigger] self@.incoming[x]).1 as int] by {
                    if x < i {
                        let t = self@.incoming[x].1;
                        assert(before.seen[t as int]);
                        assert(before.order.contains(t));
                        let y = choose|y: int| 0 <= y < before.order.len() && before.order[y] == t;
                        assert(collected@.order.subrange(0, before.order.len() as int)[y] == t);
                        assert(collected@.seen[collected@.order[y] as int]);
                    }
                }
                assert forall|k: int|
                    0 <= k < self@.nodes.len() && #[trigger] collected@.seen[k] implies exists|
                    x: int,
                |
                    0 <= x < i + 1 && reachable(
                        self@.nodes,
                        (#[trigger] self@.incoming[x]).1,
                        k as usize,
                    ) by {
                    if before.seen[k] {
                        let x = choose|x: int|
                            0 <= x < i && reachable(
                                self@.nodes,
                                (#[trigger] self@.incoming[x]).1,
                                k as usize,
                            );
                        assert(0 <= x < i + 1);
                    } else {
                        assert(reachable(self@.nodes, self@.incoming[i as int].1, k as usize));
                    }
                }
            }
            i = i + 1;
        }
        collected
    }

    /// The nodes that can be reached from a way into the graph, each once.
    pub fn collect_whole_graph(&self) -> (r: Vec<NodeId>)
        requires
            self@.wf(),
        ensures
            r@.no_duplicates(),
            forall|k: NodeId|
                r@.contains(k) ==> k < self@.nodes.len() && exists|i: int|
                    0 <= i < self@.incoming.len() && reachable(
                        self@.nodes,
                        (#[trigger] self@.incoming[i]).1,
                        k,
                    ),
            forall|i: int, k: NodeId|
                0 <= i < self@.incoming.len() && k < self@.nodes.len() && #[trigger] reachable(
                    self@.nodes,
                    self@.incoming[i].1,
                    k,
                ) ==> r@.contains(k),
    {
        let set = self.collect_graph();
        proof {
            lemma_order_no_duplicates(set@, self@.nodes.len());
            assert forall|k: NodeId| set@.order.contains(k) implies k < self@.nodes.len()
                && exists|i: int|
                0 <= i < self@.incoming.len() && reachable(
                    self@.nodes,
                    (#[trigger] self@.incoming[i]).1,
                    k,
                ) by {
                let i = choose|i: int| 0 <= i < set@.order.len() && set@.order[i] == k;
                assert(set@.seen[set@.order[i] as int]);
            }
            assert forall|i: int, k: NodeId|
                0 <= i < self@.incoming.len() && k < self@.nodes.len() && #[trigger] reachable(
                    self@.nodes,
                    self@.incoming[i].1,
                    k,
                ) implies set@.order.contains(k) by {
                lemma_closed_holds_reachable(self@.nodes, set@, self@.incoming[i].1);
                assert(set@.seen[k as int]);
            }
        }
        set.order
    }
}


/// The edges of a copy: the edges of the node of which it is a copy, each
/// leading to the copy of the node to which it led.
pub open spec fn copied_edges(edges: Seq<(EView, NodeId)>, cloned: Seq<Option<NodeId>>) -> Seq<
    (EView, NodeId),
> {
    edges.map_values(|x: (EView, NodeId)| (x.0, cloned[x.1 as int].unwrap()))
}

impl N {
    /// Copies the node `original` and every node that can be reached from it
    /// into new nodes of the same pool, and returns the copy of `original`.
    /// `cloned` says for every node whether it has a copy and which: a node that
    /// has one is not copied again. Afterwards every node that can be reached
    /// from `original` has a copy. A new copy is a new node of its own, with
    /// the provenance of the node of which it is a copy and with the edges of
    /// that node, each leading to the copy of the node to which it led. The
    /// nodes that were there stay as they were.
    pub fn deep_clone(original: NodeId, cloned: &mut Vec<Option<NodeId>>, pool: &mut Pool) -> (r:
        NodeId)
        requires
            pool_closed(old(pool)@),
            original < old(pool)@.len(),
            old(cloned)@.len() == old(pool)@.len(),
            forall|v: int|
                0 <= v < old(cloned)@.len() && (#[trigger] old(cloned)@[v]).is_some() ==> old(cloned)@[v].unwrap() < old(pool)@.len(),
        ensures
            final(pool)@.len() >= old(pool)@.len(),
            final(pool)@.subrange(0, old(pool)@.len() as int) == old(pool)@,
            final(cloned)@.len() == old(cloned)@.len(),
            final(cloned)@[original as int] == Some(r),
            forall|v: int|
                0 <= v < old(cloned)@.len() && (#[trigger] old(cloned)@[v]).is_some() ==> final(cloned)@[v] == old(cloned)@[v],
            forall|v: int|
                0 <= v < old(pool)@.len() && reachable(old(pool)@, original, v as usize) ==> (
                #[trigger] final(cloned)@[v]).is_some(),
            forall|v: int|
                0 <= v < old(cloned)@.len() && (#[trigger] final(cloned)@[v]).is_some() ==> final(cloned)@[v].unwrap() < final(pool)@.len(),
            forall|v: int|
                0 <= v < old(cloned)@.len() && old(cloned)@[v].is_none() && (
                #[trigger] final(cloned)@[v]).is_some() ==> final(cloned)@[v].unwrap() >= old(pool)@.len() && final(pool)@[final(cloned)@[v].unwrap() as int] == (NView {
                    meta: old(pool)@[v].meta,
                    outgoing: copied_edges(old(pool)@[v].outgoing, final(cloned)@),
                }),
            forall|v: int, u: int|
                0 <= v < u < old(cloned)@.len() && old(cloned)@[v].is_none() && old(cloned)@[u].is_none() && (
                #[trigger] final(cloned)@[v]).is_some() && (#[trigger] final(cloned)@[u]).is_some()
                    ==> final(cloned)@[v] != final(cloned)@[u],
    {
        let ghost nodes = pool@;
        let n = pool.len();
        let order = N::collect(true, original, pool);
        let mut fresh: Vec<NodeId> = Vec::new();
        let mut i: usize = 0;
        proof {
            assert forall|x: int| 0 <= x < order@.len() implies (#[trigger] order@[x]) < n by {
                assert(order@.contains(order@[x]));
            }
            assert(pool@.subrange(0, n as int) =~= nodes);
        }
        while i < order.len()
            invariant
                i <= order.len(),
                n == nodes.len(),
                forall|x: int| 0 <= x < order@.len() ==> (#[trigger] order@[x]) < n,
                nodes == old(pool)@,
                pool@.len() == n + fresh@.len(),
                pool@.subrange(0, n as int) == nodes,
                cloned@.len() == n,
                forall|k: NodeId| order@.contains(k) <==> k < n && reachable(nodes, original, k),
                forall|v: int|
                    0 <= v < n && (#[trigger] old(cloned)@[v]).is_some() ==> cloned@[v] == old(cloned)@[v],
                forall|x: int| 0 <= x < i ==> (#[trigger] cloned@[order@[x] as int]).is_some(),
                forall|v: int|
                    0 <= v < n && (#[trigger] cloned@[v]).is_some() ==> cloned@[v].unwrap()
                        < pool@.len(),
                forall|v: int|
                    0 <= v < n && old(cloned)@[v].is_none() && (#[trigger] cloned@[v]).is_some()
                        ==> cloned@[v].unwrap() >= n && fresh@[cloned@[v].unwrap() - n] == v,
                forall|x: int|
                    0 <= x < fresh@.len() ==> (#[trigger] fresh@[x]) < n && old(cloned)@[fresh@[x] as int].is_none()
                        && cloned@[fresh@[x] as int] == Some((n + x) as usize) && reachable(
                        nodes,
                        original,
                        fresh@[x],
                    ) && pool@[n + x] == (NView {
                        meta: nodes[fresh@[x] as int].meta,
                        outgoing: Seq::empty(),
                    }),
            decreases order.len() - i,
        {
            let v = order[i];
            assert(order@[i as int] < n);
            assert(order@.contains(v));
            let ghost cloned_before = cloned@;
            let ghost fresh_before = fresh@;
            if cloned[v].is_none() {
                let ghost before = pool@;
                assert(before[v as int] == nodes[v as int]) by {
                    assert(before.subrange(0, n as int)[v as int] == nodes[v as int]);
                }
                let copy = N::shallow_copy(v, pool);
                cloned[v] = Some(copy);
                fresh.push(v);
                assert(pool@.subrange(0, n as int) =~= nodes);
                assert forall|u: int|
                    0 <= u < n && old(cloned)@[u].is_none() && (
                    #[trigger] cloned@[u]).is_some() implies cloned@[u].unwrap() >= n && fresh@[cloned@[u].unwrap()
                    - n] == u by {
                    if u != v {
                        assert(cloned@[u] == cloned_before[u]);
                        assert(fresh@[cloned@[u].unwrap() - n] == fresh_before[cloned@[u].unwrap()
                            - n]);
                    }
                }
                assert forall|x: int| 0 <= x < fresh@.len() implies (#[trigger] fresh@[x]) < n
                    && old(cloned)@[fresh@[x] as int].is_none() && cloned@[fresh@[x] as int]
                    == Some((n + x) as usize) && reachable(nodes, original, fresh@[x]) && pool@[n
                    + x] == (NView {
                    meta: nodes[fresh@[x] as int].meta,
                    outgoing: Seq::empty(),
                }) by {
                    if x < fresh_before.len() {
                        assert(fresh@[x] == fresh_before[x]);
                        assert(cloned_before[fresh_before[x] as int] == Some((n + x) as usize));
                        assert(fresh_before[x] != v);
                        assert(pool@[n + x] == before[n + x]);
                    } else {
                        if old(cloned)@[v as int].is_some() {
                            assert(cloned_before[v as int] == old(cloned)@[v as int]);
                        }
                    }
                }
            }
            assert forall|x: int| 0 <= x < i + 1 implies (
            #[trigger] cloned@[order@[x] as int]).is_some() by {
                if x < i {
                    assert(cloned_before[order@[x] as int].is_some());
                }
            }
            i = i + 1;
        }
        proof {
            assert forall|v: int| 0 <= v < n && reachable(nodes, original, v as usize) implies (
            #[trigger] cloned@[v]).is_some() by {
                assert(order@.contains(v as usize));
                let x = choose|x: int| 0 <= x < order@.len() && order@[x] == v as usize;
                assert(cloned@[order@[x] as int].is_some());
            }
            lemma_reachable_self(nodes, original);
        }
        let ghost links = cloned@;
        let mut j: usize = 0;
        while j < fresh.len()
            invariant
                j <= fresh.len(),
                n == nodes.len(),
                nodes == old(pool)@,
                cloned@ == links,
                pool@.len() == n + fresh@.len(),
                pool@.subrange(0, n as int) == nodes,
                links.len() == n,
                pool_closed(nodes),
                forall|v: int|
                    0 <= v < n && reachable(nodes, original, v as usize) ==> (#[trigger] links[v]).is_some(),
                forall|v: int|
                    0 <= v < n && (#[trigger] links[v]).is_some() ==> links[v].unwrap() < pool@.len(),
                forall|x: int|
                    0 <= x < fresh@.len() ==> (#[trigger] fresh@[x]) < n && links[fresh@[x] as int]
                        == Some((n + x) as usize) && reachable(nodes, original, fresh@[x]),
                forall|x: int|
                    0 <= x < fresh@.len() ==> #[trigger] pool@[n + x] == (NView {
                        meta: nodes[fresh@[x] as int].meta,
                        outgoing: if x < j {
                            copied_edges(nodes[fresh@[x] as int].outgoing, links)
                        } else {
                            Seq::empty()
                        },
                    }),
            decreases fresh.len() - j,
        {
            let v = fresh[j];
            assert(fresh@[j as int] < n);
            assert(pool@.subrange(0, n as int)[v as int] == nodes[v as int]);
            let count = N::outgoing(v, pool).len();
            let total = pool.len();
            let from = n + j;
            let ghost at_start = pool@;
            let mut k: usize = 0;
            assert(copied_edges(nodes[v as int].outgoing, links).subrange(0, 0) =~= Seq::empty());
            while k < count
                invariant
                    k <= count,
                    v < n,
                    j < fresh@.len(),
                    v == fresh@[j as int],
                    from == n + j,
                    n == nodes.len(),
                    cloned@ == links,
                    count == nodes[v as int].outgoing.len(),
                    pool@.len() == n + fresh@.len(),
                    pool@.subrange(0, n as int) == nodes,
                    links.len() == n,
                    pool_closed(nodes),
                    reachable(nodes, original, v),
                    forall|u: int|
                        0 <= u < n && reachable(nodes, original, u as usize) ==> (
                        #[trigger] links[u]).is_some(),
                    forall|u: int|
                        0 <= u < n && (#[trigger] links[u]).is_some() ==> links[u].unwrap()
                            < pool@.len(),
                    at_start.len() == pool@.len(),
                    forall|x: int|
                        0 <= x < pool@.len() && x != from ==> #[trigger] pool@[x] == at_start[x],
                    pool@[from as int] == (NView {
                        meta: nodes[v as int].meta,
                        outgoing: copied_edges(nodes[v as int].outgoing, links).subrange(
                            0,
                            k as int,
                        ),
                    }),
                decreases count - k,
            {
                assert(pool@.subrange(0, n as int)[v as int] == nodes[v as int]);
                let edges = N::outgoing(v, pool);
                let target = edges[k].1;
                let edge = edges[k].0.clone();
                proof {
                    assert(edges_within(nodes[v as int].outgoing, n as nat));
                    assert(nodes[v as int].outgoing[k as int].1 == target);
                    assert(has_edge(nodes, v, target));
                    lemma_reachable_step(nodes, original, v, target);
                    assert(links[target as int].is_some());
                }
                let to = match cloned[target] {
                    Some(to) => to,
                    None => target,
                };
                let ghost before = pool@;
                N::push(from, (edge, to), pool);
                proof {
                    assert(pool@.subrange(0, n as int) =~= before.subrange(0, n as int));
                    let all = copied_edges(nodes[v as int].outgoing, links);
                    assert(all[k as int] == (nodes[v as int].outgoing[k as int].0, to));
                    assert(all.subrange(0, k + 1) =~= all.subrange(0, k as int).push(all[k as int]));
                }
                k = k + 1;
            }
            proof {
                let all = copied_edges(nodes[v as int].outgoing, links);
                assert(all.subrange(0, count as int) =~= all);
                assert forall|x: int| 0 <= x < fresh@.len() implies #[trigger] pool@[n + x] == (
                NView {
                    meta: nodes[fresh@[x] as int].meta,
                    outgoing: if x < j + 1 {
                        copied_edges(nodes[fresh@[x] as int].outgoing, links)
                    } else {
                        Seq::empty()
                    },
                }) by {
                    if x != j {
                        assert(pool@[n + x] == at_start[n + x]);
                    }
                }
            }
            j = j + 1;
        }
        proof {
            assert forall|v: int|
                0 <= v < n && old(cloned)@[v].is_none() && (
                #[trigger] cloned@[v]).is_some() implies cloned@[v].unwrap() >= n && pool@[cloned@[v].unwrap() as int]
                == (NView {
                meta: nodes[v].meta,
                outgoing: copied_edges(nodes[v].outgoing, cloned@),
            }) by {
                let x = cloned@[v].unwrap() - n;
                assert(fresh@[x] == v);
                assert(pool@[n + x] == (NView {
                    meta: nodes[fresh@[x] as int].meta,
                    outgoing: copied_edges(nodes[fresh@[x] as int].outgoing, links),
                }));
            }
            assert forall|v: int, u: int|
                0 <= v < u < n && old(cloned)@[v].is_none() && old(cloned)@[u].is_none() && (
                #[trigger] cloned@[v]).is_some() && (
                #[trigger] cloned@[u]).is_some() implies cloned@[v] != cloned@[u] by {
                let x = cloned@[v].unwrap() - n;
                let y = cloned@[u].unwrap() - n;
                assert(fresh@[x] == v);
                assert(fresh@[y] == u);
            }
        }
        match cloned[original] {
            Some(r) => r,
            None => original,
        }
    }
}

} // verus!
