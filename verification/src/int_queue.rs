use crate::int_seq::IntSeq;
use vstd::prelude::*;

verus! {

/// A node of a queue: a value and the queue behind it.
pub struct IntQueueNode(pub Box<(u32, IntQueue)>);

/// A singly linked queue of symbols. Its view is the sequence of its values.
pub enum IntQueue {
    End,
    Next(IntQueueNode),
}

impl View for IntQueue {
    type V = Seq<u32>;

    open spec fn view(&self) -> Seq<u32>
        decreases self,
    {
        match self {
            IntQueue::End => Seq::empty(),
            IntQueue::Next(node) => seq![node.0.0] + node.0.1@,
        }
    }
}

impl IntQueueNode {
    /// The value of the node and the queue behind it.
    pub fn borrow(&self) -> (r: &(u32, IntQueue))
        ensures
            *r == *self.0,
    {
        &*self.0
    }

    /// The queue behind the node.
    pub fn target(&self) -> (r: &IntQueue)
        ensures
            *r == self.0.1,
    {
        &self.0.1
    }
}

impl IntQueue {
    /// Whether the queue runs into itself. A queue owns what lies behind each
    /// of its nodes, so it never does.
    pub fn has_cycle(&self) -> (r: bool)
        ensures
            !r,
    {
        false
    }

    /// The empty queue.
    pub fn end() -> (r: IntQueue)
        ensures
            r@ == Seq::<u32>::empty(),
    {
        IntQueue::End
    }

    /// Leaves the queue empty and returns what it held.
    pub fn cut(&mut self) -> (r: IntQueue)
        ensures
            r == *old(self),
            *final(self) == IntQueue::End,
    {
        let mut q = IntQueue::End;
        core::mem::swap(&mut q, self);
        q
    }

    /// The first node of a queue that is not empty.
    pub fn unwrap(&self) -> (r: &IntQueueNode)
        requires
            self@.len() > 0,
        ensures
            *self == IntQueue::Next(*r),
    {
        match self {
            IntQueue::Next(n) => n,
            IntQueue::End => {
                assert(false);
                vstd::pervasive::unreached()
            },
        }
    }

    pub fn is_end(&self) -> (r: bool)
        ensures
            r == (self@.len() == 0),
    {
        match self {
            IntQueue::Next(node) => {
                assert(self@ == seq![node.0.0] + node.0.1@);
                assert(self@.len() > 0);
                false
            },
            IntQueue::End => true,
        }
    }

    /// The queue of `val` followed by `next`.
    pub fn next(val: u32, next: IntQueue) -> (r: IntQueue)
        ensures
            r@ == seq![val] + next@,
    {
        IntQueue::Next(IntQueueNode(Box::new((val, next))))
    }

    /// The queue of the given values.
    pub fn collect(values: &[u32]) -> (r: IntQueue)
        ensures
            r@ == values@,
    {
        let mut q = IntQueue::end();
        let mut i: usize = values.len();
        proof {
            assert(values@.subrange(i as int, values@.len() as int) =~= Seq::empty());
        }
        while i > 0
            invariant
                i <= values.len(),
                q@ == values@.subrange(i as int, values@.len() as int),
            decreases i,
        {
            i = i - 1;
            let ghost before = q@;
            q = IntQueue::next(values[i], q);
            assert(q@ =~= values@.subrange(i as int, values@.len() as int));
        }
        assert(values@.subrange(0, values@.len() as int) =~= values@);
        q
    }

    /// The queue of the symbols of `s`.
    pub fn from(s: &str) -> (r: IntQueue)
        ensures
            r@ == crate::int_seq::symbols_of(s@),
    {
        let symbols = IntSeq::from(s).to_symbols();
        IntQueue::collect(symbols.as_slice())
    }
}

} // verus!
