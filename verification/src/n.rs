use crate::e::{EView, E};
use crate::pool::Pool;
use crate::v::V;
use vstd::prelude::*;

verus! {

/// The name of a node: its index in the pool that owns it.
pub type NodeId = usize;

/// What a list of edges is: each edge with the node it leads to.
pub open spec fn edges_view(edges: Seq<(E, NodeId)>) -> Seq<(EView, NodeId)> {
    edges.map_values(|x: (E, NodeId)| (x.0@, x.1))
}

/// What a node is: its provenance and its outgoing edges.
pub struct NView {
    pub meta: V,
    pub outgoing: Seq<(EView, NodeId)>,
}

/// A node: a provenance token and the list of the edges that leave it.
#[derive(Debug)]
pub struct N {
    pub meta: V,
    pub outgoing: Vec<(E, NodeId)>,
}

impl View for N {
    type V = NView;

    open spec fn view(&self) -> NView {
        NView { meta: self.meta, outgoing: edges_view(self.outgoing@) }
    }
}

impl Clone for N {
    fn clone(&self) -> (r: Self)
        ensures
            r@ == self@,
    {
        N { meta: self.meta, outgoing: clone_edges(&self.outgoing) }
    }
}

/// A copy of a list of edges.
pub fn clone_edges(edges: &Vec<(E, NodeId)>) -> (r: Vec<(E, NodeId)>)
    ensures
        edges_view(r@) == edges_view(edges@),
{
    let mut r: Vec<(E, NodeId)> = Vec::with_capacity(edges.len());
    let mut i: usize = 0;
    while i < edges.len()
        invariant
            i <= edges.len(),
            r.len() == i,
            forall|k: int| 0 <= k < i ==> (r@[k].0@ == edges@[k].0@ && r@[k].1 == edges@[k].1),
        decreases edges.len() - i,
    {
        let e = edges[i].0.clone();
        r.push((e, edges[i].1));
        i = i + 1;
    }
    assert(edges_view(r@) =~= edges_view(edges@));
    r
}

impl N {
    pub fn get_meta(&self) -> (r: &V)
        ensures
            *r == self@.meta,
    {
        &self.meta
    }

    pub fn get_outgoing(&self) -> (r: &Vec<(E, NodeId)>)
        ensures
            edges_view(r@) == self@.outgoing,
    {
        &self.outgoing
    }

    pub fn get_outgoing_mut(&mut self) -> (r: &mut Vec<(E, NodeId)>)
        ensures
            *r == old(self).outgoing,
            final(self).outgoing == *final(r),
            final(self).meta == old(self).meta,
    {
        &mut self.outgoing
    }

    /// Puts a node without edges into the pool and returns its name.
    pub fn new(meta: V, pool: &mut Pool) -> (r: NodeId)
        ensures
            r == old(pool)@.len(),
            final(pool)@ == old(pool)@.push(NView { meta, outgoing: Seq::empty() }),
    {
        N::with_capacity(2, meta, pool)
    }

    /// As `new`, with room for `cap` edges.
    pub fn with_capacity(cap: usize, meta: V, pool: &mut Pool) -> (r: NodeId)
        ensures
            r == old(pool)@.len(),
            final(pool)@ == old(pool)@.push(NView { meta, outgoing: Seq::empty() }),
    {
        let n = N { meta, outgoing: Vec::with_capacity(cap) };
        assert(n@.outgoing =~= Seq::empty());
        pool.new_n(n)
    }

    /// Puts into the pool a node with the provenance of `original` and no edges.
    pub fn shallow_copy(original: NodeId, pool: &mut Pool) -> (r: NodeId)
        requires
            original < old(pool)@.len(),
        ensures
            r == old(pool)@.len(),
            final(pool)@ == old(pool)@.push(
                NView { meta: old(pool)@[original as int].meta, outgoing: Seq::empty() },
            ),
    {
        let meta = *N::meta(original, pool);
        let cap = N::outgoing(original, pool).len();
        N::with_capacity(cap, meta, pool)
    }

    /// The provenance of the node `n`.
    pub fn meta(n: NodeId, pool: &Pool) -> (r: &V)
        requires
            n < pool@.len(),
        ensures
            *r == pool@[n as int].meta,
    {
        &pool.nodes[n].meta
    }

    /// Appends an edge to the node `n`.
    pub fn push(n: NodeId, edge: (E, NodeId), pool: &mut Pool)
        requires
            n < old(pool)@.len(),
        ensures
            final(pool)@ == old(pool)@.update(
                n as int,
                NView {
                    meta: old(pool)@[n as int].meta,
                    outgoing: old(pool)@[n as int].outgoing.push((edge.0@, edge.1)),
                },
            ),
    {
        let ghost before = pool.nodes@[n as int].outgoing@;
        pool.nodes[n].outgoing.push(edge);
        assert(edges_view(before.push(edge)) =~= edges_view(before).push((edge.0@, edge.1)));
        assert(pool@ =~= old(pool)@.update(
            n as int,
            NView {
                meta: old(pool)@[n as int].meta,
                outgoing: old(pool)@[n as int].outgoing.push((edge.0@, edge.1)),
            },
        ));
    }

    /// The edges that leave the node `n`.
    pub fn outgoing(n: NodeId, pool: &Pool) -> (r: &Vec<(E, NodeId)>)
        requires
            n < pool@.len(),
        ensures
            edges_view(r@) == pool@[n as int].outgoing,
    {
        &pool.nodes[n].outgoing
    }
}

} // verus!
