use crate::int_seq::{symbols_of, A};
use crate::utf8::{count_code_points, scalar_at, scalar_before, tail};
use vstd::prelude::*;
use vstd::slice::slice_subrange;
use vstd::utf8::{decode_utf8, valid_utf8};

verus! {

/// The symbols of a string, to be taken one by one from either end, with the
/// number of those that are left known at all times. Its view is the sequence
/// of the symbols that are left.
pub struct ExactSizeChars<'a> {
    bytes: &'a [u8],
    front: usize,
    back: usize,
    remaining_chars: usize,
}

impl<'a> View for ExactSizeChars<'a> {
    type V = Seq<A>;

    closed spec fn view(&self) -> Seq<A> {
        symbols_of(decode_utf8(self.bytes@.subrange(self.front as int, self.back as int)))
    }
}

impl<'a> ExactSizeChars<'a> {
    #[verifier::type_invariant]
    spec fn well_formed(&self) -> bool {
        &&& self.front <= self.back <= self.bytes@.len()
        &&& valid_utf8(self.bytes@.subrange(self.front as int, self.back as int))
        &&& self.remaining_chars == decode_utf8(
            self.bytes@.subrange(self.front as int, self.back as int),
        ).len()
    }

    /// The symbols that the bytes encode, of which there are `chars`.
    pub fn new(bytes: &'a [u8], chars: usize) -> (r: Self)
        requires
            valid_utf8(bytes@),
            chars == decode_utf8(bytes@).len(),
        ensures
            r@ == symbols_of(decode_utf8(bytes@)),
    {
        assert(bytes@.subrange(0, bytes@.len() as int) =~= bytes@);
        ExactSizeChars { bytes, front: 0, back: bytes.len(), remaining_chars: chars }
    }

    /// The symbols of the string.
    pub fn from(s: &'a str) -> (r: Self)
        ensures
            r@ == symbols_of(s@),
    {
        let bytes = s.as_bytes();
        proof {
            vstd::utf8::encode_utf8_valid_utf8(s@);
            vstd::utf8::encode_utf8_decode_utf8(s@);
        }
        let chars = count_code_points(bytes);
        ExactSizeChars::new(bytes, chars)
    }

    /// The number of symbols that are left.
    pub fn len(&self) -> (r: usize)
        ensures
            r == self@.len(),
    {
        proof {
            use_type_invariant(self);
        }
        self.remaining_chars
    }

    /// The bounds of the number of symbols that are left, which agree.
    pub fn size_hint(&self) -> (r: (usize, Option<usize>))
        ensures
            r.0 == self@.len(),
            r.1 == Some(self@.len() as usize),
    {
        proof {
            use_type_invariant(self);
        }
        (self.remaining_chars, Some(self.remaining_chars))
    }

    /// The number of symbols that are left.
    pub fn count(self) -> (r: usize)
        ensures
            r == self@.len(),
    {
        self.len()
    }

    /// Takes the first of the symbols that are left.
    pub fn next(&mut self) -> (r: Option<A>)
        ensures
            old(self)@.len() == 0 ==> r.is_none() && final(self)@ == old(self)@,
            old(self)@.len() > 0 ==> r == Some(old(self)@[0]) && final(self)@ == old(self)@.drop_first(),
    {
        proof {
            use_type_invariant(&*self);
        }
        if self.front >= self.back {
            proof {
                assert(self.bytes@.subrange(self.front as int, self.back as int).len() == 0);
            }
            return None;
        }
        let left = slice_subrange(self.bytes, self.front, self.back);
        assert(tail(left@, 0) =~= left@);
        let (c, width) = scalar_at(left, 0);
        proof {
            let rest = self.bytes@.subrange(self.front + width, self.back as int);
            assert(tail(left@, width as int) =~= rest);
            assert(decode_utf8(left@) == seq![c as char] + decode_utf8(rest));
            assert((c as char) as u32 == c);
            assert(symbols_of(decode_utf8(left@)).drop_first() =~= symbols_of(decode_utf8(rest)));
        }
        *self = ExactSizeChars {
            bytes: self.bytes,
            front: self.front + width,
            back: self.back,
            remaining_chars: self.remaining_chars - 1,
        };
        Some(c)
    }

    /// Takes the last of the symbols that are left.
    pub fn next_back(&mut self) -> (r: Option<A>)
        ensures
            old(self)@.len() == 0 ==> r.is_none() && final(self)@ == old(self)@,
            old(self)@.len() > 0 ==> r == Some(old(self)@.last()) && final(self)@ == old(self)@.drop_last(),
    {
        proof {
            use_type_invariant(&*self);
        }
        if self.front >= self.back {
            proof {
                assert(self.bytes@.subrange(self.front as int, self.back as int).len() == 0);
            }
            return None;
        }
        let left = slice_subrange(self.bytes, self.front, self.back);
        assert(left@.subrange(0, left@.len() as int) =~= left@);
        let (c, start) = scalar_before(left, left.len());
        proof {
            let rest = self.bytes@.subrange(self.front as int, self.front + start);
            assert(left@.subrange(0, start as int) =~= rest);
            assert((c as char) as u32 == c);
            assert(symbols_of(decode_utf8(left@)).drop_last() =~= symbols_of(decode_utf8(rest)));
        }
        *self = ExactSizeChars {
            bytes: self.bytes,
            front: self.front,
            back: self.front + start,
            remaining_chars: self.remaining_chars - 1,
        };
        Some(c)
    }

    /// The last of the symbols that are left.
    pub fn last(self) -> (r: Option<A>)
        ensures
            self@.len() == 0 ==> r.is_none(),
            self@.len() > 0 ==> r == Some(self@.last()),
    {
        let mut me = self;
        me.next_back()
    }
}

} // verus!
