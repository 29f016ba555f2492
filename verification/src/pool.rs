use crate::n::{NView, NodeId, N};
use vstd::prelude::*;

verus! {

/// The pool that owns the nodes of one graph. A node is named by its index, and
/// the name stays valid for as long as the pool lives.
#[derive(Debug)]
pub struct Pool {
    pub nodes: Vec<N>,
}

impl View for Pool {
    type V = Seq<NView>;

    open spec fn view(&self) -> Seq<NView> {
        self.nodes@.map_values(|n: N| n@)
    }
}

impl Clone for Pool {
    fn clone(&self) -> (r: Self)
        ensures
            r@ == self@,
    {
        let mut nodes: Vec<N> = Vec::with_capacity(self.nodes.len());
        let mut i: usize = 0;
        while i < self.nodes.len()
            invariant
                i <= self.nodes.len(),
                nodes.len() == i,
                forall|k: int| 0 <= k < i ==> nodes@[k]@ == self.nodes@[k]@,
            decreases self.nodes.len() - i,
        {
            nodes.push(self.nodes[i].clone());
            i = i + 1;
        }
        let r = Pool { nodes };
        assert(r@ =~= self@);
        r
    }
}

impl Pool {
    /// The pool without nodes.
    pub fn new() -> (r: Pool)
        ensures
            r@ == Seq::<NView>::empty(),
    {
        let r = Pool { nodes: Vec::new() };
        assert(r@ =~= Seq::<NView>::empty());
        r
    }

    /// Takes the node in and returns the name under which it is kept.
    pub fn new_n(&mut self, n: N) -> (r: NodeId)
        ensures
            r == old(self)@.len(),
            final(self)@ == old(self)@.push(n@),
    {
        let id = self.nodes.len();
        self.nodes.push(n);
        assert(self@ =~= old(self)@.push(n@));
        id
    }

    /// Whether `n` names a node of this pool.
    pub fn contains_n(&self, n: NodeId) -> (r: bool)
        ensures
            r == (n < self@.len()),
    {
        n < self.nodes.len()
    }

    /// Whether the pool holds no node.
    pub fn is_empty(&self) -> (r: bool)
        ensures
            r == (self@.len() == 0),
    {
        self.nodes.len() == 0
    }

    /// The number of nodes.
    pub fn len(&self) -> (r: usize)
        ensures
            r == self@.len(),
    {
        self.nodes.len()
    }

    /// Gives up every node.
    pub fn clear(&mut self)
        ensures
            final(self)@ == Seq::<NView>::empty(),
    {
        self.nodes.clear();
        assert(self@ =~= Seq::<NView>::empty());
    }
}

} // verus!
