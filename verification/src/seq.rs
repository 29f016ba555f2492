use crate::text::str_from_utf8;
use vstd::prelude::*;

verus! {

/// A sequence of values that owns them: they are given up with it. Its view
/// is the sequence it holds.
#[derive(Debug)]
pub struct Sequence<T> {
    pub content: Vec<T>,
}

impl<T> View for Sequence<T> {
    type V = Seq<T>;

    open spec fn view(&self) -> Seq<T> {
        self.content@
    }
}

impl<T: Copy> Clone for Sequence<T> {
    fn clone(&self) -> (r: Self)
        ensures
            r@ == self@,
    {
        Sequence::from(self.content.as_slice())
    }
}

/// The length of the longest common prefix of two sequences.
pub open spec fn lcp_len<T>(a: Seq<T>, b: Seq<T>) -> nat
    decreases a.len(),
{
    if a.len() == 0 || b.len() == 0 || a[0] != b[0] {
        0
    } else {
        1 + lcp_len(a.drop_first(), b.drop_first())
    }
}

/// The length of the longest common prefix is the first place at which the
/// sequences differ or one of them ends.
pub proof fn lemma_lcp_len<T>(a: Seq<T>, b: Seq<T>, n: int)
    requires
        0 <= n <= a.len(),
        n <= b.len(),
        forall|i: int| 0 <= i < n ==> a[i] == b[i],
        n == a.len() || n == b.len() || a[n] != b[n],
    ensures
        lcp_len(a, b) == n,
    decreases a.len(),
{
    if n > 0 {
        let a1 = a.drop_first();
        let b1 = b.drop_first();
        assert(a[0] == b[0]);
        assert forall|i: int| 0 <= i < n - 1 implies a1[i] == b1[i] by {
            assert(a[i + 1] == b[i + 1]);
        }
        lemma_lcp_len(a1, b1, n - 1);
    }
}

impl<T> Sequence<T> {
    /// The sequence of the values, which it takes over.
    pub fn from_iter(values: Vec<T>) -> (r: Self)
        ensures
            r@ == values@,
    {
        Sequence { content: values }
    }

    /// The values, which the sequence hands over, to be taken one by one.
    pub fn into_iter(self) -> (r: Vec<T>)
        ensures
            r@ == self@,
    {
        self.content
    }

    pub fn empty() -> (r: Self)
        ensures
            r@ == Seq::<T>::empty(),
    {
        Sequence { content: Vec::new() }
    }

    pub fn is_empty(&self) -> (r: bool)
        ensures
            r == (self@.len() == 0),
    {
        self.len() == 0
    }

    pub fn len(&self) -> (r: usize)
        ensures
            r == self@.len(),
    {
        self.content.len()
    }

    pub fn singleton(elem: T) -> (r: Self)
        ensures
            r@ == seq![elem],
    {
        let mut content: Vec<T> = Vec::new();
        content.push(elem);
        Sequence { content }
    }

    /// The values, to be read one by one.
    pub fn iter(&self) -> (r: &[T])
        ensures
            r@ == self@,
    {
        self.content.as_slice()
    }

    /// The values, to be changed one by one.
    pub fn iter_mut(&mut self) -> (r: &mut Vec<T>)
        ensures
            *r == old(self).content,
            final(self).content == *final(r),
    {
        &mut self.content
    }

    pub fn as_slice(&self) -> (r: &[T])
        ensures
            r@ == self@,
    {
        self.content.as_slice()
    }

    /// Keeps the first `offset` values and returns the rest.
    pub fn cut_off(&mut self, offset: usize) -> (r: Self)
        requires
            offset <= old(self)@.len(),
        ensures
            final(self)@ == old(self)@.subrange(0, offset as int),
            r@ == old(self)@.subrange(offset as int, old(self)@.len() as int),
    {
        let rest = self.content.split_off(offset);
        Sequence { content: rest }
    }

    /// The first `offset` values and the rest.
    pub fn split(self, offset: usize) -> (r: (Self, Self))
        requires
            offset <= self@.len(),
        ensures
            r.0@ == self@.subrange(0, offset as int),
            r.1@ == self@.subrange(offset as int, self@.len() as int),
    {
        let mut me = self;
        let suffix = me.cut_off(offset);
        (me, suffix)
    }
}

impl<T: Copy> Sequence<T> {
    /// The sequence of the values of the slice.
    pub fn from(s: &[T]) -> (r: Self)
        ensures
            r@ == s@,
    {
        let mut content: Vec<T> = Vec::with_capacity(s.len());
        let mut i: usize = 0;
        while i < s.len()
            invariant
                i <= s.len(),
                content@ == s@.subrange(0, i as int),
            decreases s.len() - i,
        {
            content.push(s[i]);
            assert(content@ =~= s@.subrange(0, i + 1));
            i = i + 1;
        }
        assert(s@.subrange(0, i as int) =~= s@);
        Sequence { content }
    }

    /// The sequence of `len` copies of `val`.
    pub fn filled(val: T, len: usize) -> (r: Self)
        ensures
            r@ == Seq::new(len as nat, |i: int| val),
    {
        let mut content: Vec<T> = Vec::with_capacity(len);
        let mut i: usize = 0;
        while i < len
            invariant
                i <= len,
                content@ == Seq::new(i as nat, |i: int| val),
            decreases len - i,
        {
            content.push(val);
            assert(content@ =~= Seq::new((i + 1) as nat, |i: int| val));
            i = i + 1;
        }
        Sequence { content }
    }

    /// The sequence `self` followed by `other`.
    pub fn concat(&self, other: &Sequence<T>) -> (r: Sequence<T>)
        ensures
            r@ == self@ + other@,
    {
        self.concat_slice(other.as_slice())
    }

    /// The sequence `self` followed by the values of `other`.
    pub fn concat_slice(&self, other: &[T]) -> (r: Sequence<T>)
        ensures
            r@ == self@ + other@,
    {
        Sequence::concat_slices(self.as_slice(), other)
    }

    /// The values of `lhs` followed by those of `rhs`.
    pub fn concat_slices(lhs: &[T], rhs: &[T]) -> (r: Sequence<T>)
        ensures
            r@ == lhs@ + rhs@,
    {
        let mut r = Sequence::from(lhs);
        r.extend_slice(rhs);
        r
    }

    /// Appends the values of `other`.
    pub fn extend_slice(&mut self, other: &[T])
        ensures
            final(self)@ == old(self)@ + other@,
    {
        let mut i: usize = 0;
        assert(old(self)@ + other@.subrange(0, 0) =~= old(self)@);
        while i < other.len()
            invariant
                i <= other.len(),
                self@ == old(self)@ + other@.subrange(0, i as int),
            decreases other.len() - i,
        {
            self.content.push(other[i]);
            assert(self@ =~= old(self)@ + other@.subrange(0, i + 1));
            i = i + 1;
        }
        assert(other@.subrange(0, i as int) =~= other@);
    }

    /// Appends `other`.
    pub fn extend(&mut self, other: &Sequence<T>)
        ensures
            final(self)@ == old(self)@ + other@,
    {
        self.extend_slice(other.as_slice())
    }

    /// Puts `prefix` in front.
    pub fn prepend(&mut self, prefix: &Self)
        ensures
            final(self)@ == prefix@ + old(self)@,
    {
        self.prepend_slice(prefix.as_slice())
    }

    /// Puts the values of `prefix` in front.
    pub fn prepend_slice(&mut self, prefix: &[T])
        ensures
            final(self)@ == prefix@ + old(self)@,
    {
        if prefix.len() == 0 {
            assert(prefix@ + self@ =~= self@);
            return ;
        }
        let mut concatenated = Sequence::concat_slices(prefix, self.as_slice());
        core::mem::swap(self, &mut concatenated);
    }

}

impl Sequence<u8> {
    /// The length of the longest common prefix of `self` and `other`.
    pub fn lcp(&self, other: &[u8]) -> (r: usize)
        ensures
            r == lcp_len(self@, other@),
            r <= self@.len(),
            r <= other@.len(),
            forall|i: int| 0 <= i < r ==> self@[i] == other@[i],
            r == self@.len() || r == other@.len() || self@[r as int] != other@[r as int],
    {
        let mut i: usize = 0;
        while i < self.content.len() && i < other.len() && self.content[i] == other[i]
            invariant
                i <= self@.len(),
                i <= other@.len(),
                forall|k: int| 0 <= k < i ==> self@[k] == other@[k],
            decreases self@.len() - i,
        {
            i = i + 1;
        }
        proof {
            lemma_lcp_len(self@, other@, i as int);
        }
        i
    }

    /// The bytes as a string, if they are well-formed UTF-8.
    pub fn as_str(&self) -> (r: Option<&str>)
        ensures
            r.is_some() <==> vstd::utf8::valid_utf8(self@),
            r.is_some() ==> r.unwrap()@ == vstd::utf8::decode_utf8(self@),
    {
        str_from_utf8(self.content.as_slice())
    }

    /// Whether the two sequences hold the same bytes.
    pub fn same(&self, other: &[u8]) -> (r: bool)
        ensures
            r == (self@ == other@),
    {
        if self.content.len() != other.len() {
            return false;
        }
        let n = self.lcp(other);
        let r = n == other.len();
        proof {
            if r {
                assert(self@ =~= other@);
            }
        }
        r
    }
}

} // verus!
