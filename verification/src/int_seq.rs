use crate::utf8::{
    count_code_points, decode_code_points, encode_code_point, lemma_decode_utf8_concat,
    lemma_decode_utf8_len, lemma_encode_scalar_single,
};
use crate::compilation_error::CompErr;
use crate::ranged_serializers::{unescape_u32, unescaped};
use crate::v::V;
use vstd::prelude::*;
use vstd::slice::slice_to_vec;
use vstd::std_specs::cmp::PartialEqSpecImpl;
use vstd::std_specs::ops::AddSpecImpl;
use vstd::utf8::*;

verus! {

/// A symbol of the alphabet: a 32-bit value over the Unicode codepoint space.
pub type A = u32;

/// The reflection marker: in an output it stands for the input symbol that the
/// transition consumed. It is not allowed as an input symbol.
pub const REFLECT: A = 0;

/// The symbol before `symbol`; the lowest symbol has none and is returned as it is.
pub fn decrement(symbol: A) -> (r: A)
    ensures
        symbol > 0 ==> r == symbol - 1,
        symbol == 0 ==> r == 0,
{
    if symbol > 0 {
        symbol - 1
    } else {
        symbol
    }
}

/// The symbol after `symbol`; the highest symbol has none and is returned as it is.
pub fn increment(symbol: A) -> (r: A)
    ensures
        symbol < A::MAX ==> r == symbol + 1,
        symbol == A::MAX ==> r == A::MAX,
{
    if symbol < A::MAX {
        symbol + 1
    } else {
        symbol
    }
}

/// A sequence of symbols as contracts speak of it. It exists in contracts only:
/// a function that takes or gives one is never run.
pub type Symbols = Seq<A>;

/// The symbols that a sequence of characters stands for.
pub open spec fn symbols_of(chars: Seq<char>) -> Seq<A> {
    chars.map_values(|c: char| c as u32)
}

/// The symbols that a literal stands for, or nothing if it ends in a backslash
/// that escapes nothing.
pub open spec fn unescape_symbols(s: Seq<A>) -> Option<Seq<A>>
    decreases s.len(),
{
    if s.len() == 0 {
        Some(Seq::empty())
    } else if s[0] == 0x5C {
        if s.len() < 2 {
            None
        } else {
            match unescape_symbols(s.subrange(2, s.len() as int)) {
                Some(t) => Some(seq![unescaped(s[1])] + t),
                None => None,
            }
        }
    } else {
        match unescape_symbols(s.subrange(1, s.len() as int)) {
            Some(t) => Some(seq![s[0]] + t),
            None => None,
        }
    }
}

/// An immutable string of symbols, stored as UTF-8. Its view is the sequence of
/// characters it holds.
#[derive(Debug)]
pub struct IntSeq {
    content: Vec<u8>,
    chars_len: usize,
}

impl View for IntSeq {
    type V = Seq<char>;

    closed spec fn view(&self) -> Seq<char> {
        decode_utf8(self.content@)
    }
}

impl IntSeq {
    #[verifier::type_invariant]
    spec fn well_formed(&self) -> bool {
        &&& valid_utf8(self.content@)
        &&& self.chars_len == decode_utf8(self.content@).len()
    }

    /// The symbols of the string, one per character.
    pub open spec fn symbols(&self) -> Seq<A> {
        symbols_of(self@)
    }

    /// The empty string.
    pub fn epsilon() -> (r: IntSeq)
        ensures
            r@ == Seq::<char>::empty(),
    {
        IntSeq { content: Vec::new(), chars_len: 0 }
    }

    pub fn is_empty(&self) -> (r: bool)
        ensures
            r == (self@.len() == 0),
    {
        self.len() == 0
    }

    /// The number of symbols.
    pub fn len(&self) -> (r: usize)
        ensures
            r == self@.len(),
    {
        proof {
            use_type_invariant(self);
        }
        self.chars_len
    }

    /// The number of bytes of the UTF-8 encoding.
    pub fn bytes_len(&self) -> (r: usize)
        ensures
            r == encode_utf8(self@).len(),
    {
        proof {
            use_type_invariant(self);
            decode_utf8_encode_utf8(self.content@);
        }
        self.content.len()
    }

    /// The UTF-8 encoding of the string.
    pub fn as_bytes(&self) -> (r: &[u8])
        ensures
            r@ == encode_utf8(self@),
            valid_utf8(r@),
    {
        proof {
            use_type_invariant(self);
            decode_utf8_encode_utf8(self.content@);
        }
        self.content.as_slice()
    }

    /// The string as a string slice.
    pub fn as_str(&self) -> (r: &str)
        ensures
            r@ == self@,
    {
        proof {
            use_type_invariant(self);
        }
        let s = crate::text::str_from_utf8(self.content.as_slice());
        s.unwrap()
    }

    /// The string that holds the characters of `s`.
    pub fn from(s: &str) -> (r: IntSeq)
        ensures
            r@ == s@,
    {
        let bytes = s.as_bytes();
        proof {
            encode_utf8_valid_utf8(s@);
            encode_utf8_decode_utf8(s@);
        }
        let chars_len = count_code_points(bytes);
        IntSeq { content: slice_to_vec(bytes), chars_len }
    }

    /// The string made of well-formed UTF-8 bytes.
    pub fn from_utf8(bytes: &[u8]) -> (r: IntSeq)
        requires
            valid_utf8(bytes@),
        ensures
            r@ == decode_utf8(bytes@),
    {
        let chars_len = count_code_points(bytes);
        IntSeq { content: slice_to_vec(bytes), chars_len }
    }

    /// The string of one symbol, if the symbol is a Unicode scalar value.
    pub fn singleton(elem: A) -> (r: Option<IntSeq>)
        ensures
            r.is_some() <==> is_scalar(elem),
            r.is_some() ==> r.unwrap()@ == seq![elem as char],
    {
        if elem < 0xD800 || (0xDFFF < elem && elem <= 0x10FFFF) {
            let mut content: Vec<u8> = Vec::new();
            encode_code_point(elem, &mut content);
            proof {
                assert((elem as char) as u32 == elem);
                lemma_encode_scalar_single(elem as char);
                assert(content@ =~= encode_scalar(elem));
            }
            Some(IntSeq { content, chars_len: 1 })
        } else {
            None
        }
    }

    /// The string of the given symbols, if each of them is a Unicode scalar value.
    pub fn from_symbols(symbols: &[A]) -> (r: Option<IntSeq>)
        ensures
            r.is_some() <==> forall|i: int| 0 <= i < symbols@.len() ==> is_scalar(symbols@[i]),
            r.is_some() ==> r.unwrap().symbols() == symbols@,
    {
        let mut content: Vec<u8> = Vec::new();
        let mut i: usize = 0;
        proof {
            assert(symbols_of(decode_utf8(content@)) =~= symbols@.subrange(0, 0));
        }
        while i < symbols.len()
            invariant
                i <= symbols.len(),
                valid_utf8(content@),
                decode_utf8(content@).len() == i,
                symbols_of(decode_utf8(content@)) == symbols@.subrange(0, i as int),
                forall|k: int| 0 <= k < i ==> is_scalar(symbols@[k]),
            decreases symbols.len() - i,
        {
            let elem = symbols[i];
            if elem < 0xD800 || (0xDFFF < elem && elem <= 0x10FFFF) {
                let ghost before = content@;
                encode_code_point(elem, &mut content);
                proof {
                    assert((elem as char) as u32 == elem);
                    lemma_encode_scalar_single(elem as char);
                    lemma_decode_utf8_concat(before, encode_scalar(elem));
                    assert(symbols_of(decode_utf8(content@)) =~= symbols@.subrange(0, i + 1));
                }
                i = i + 1;
            } else {
                return None;
            }
        }
        assert(symbols@.subrange(0, i as int) =~= symbols@);
        Some(IntSeq { content, chars_len: i })
    }

    /// The string that the literal `s` of the source language stands for: a
    /// backslash and the symbol behind it stand for one symbol. A backslash at
    /// the very end stands for nothing, and the literal is refused.
    pub fn from_literal(pos: V, s: &str) -> (r: Result<IntSeq, CompErr>)
        ensures
            match unescape_symbols(symbols_of(s@)) {
                Some(t) => r.is_ok() && r.unwrap().symbols() == t,
                None => r matches Err(CompErr::Parse(p, m)) && p == pos && m@
                    == "String literal has dangling backslash"@,
            },
    {
        let bytes = s.as_bytes();
        proof {
            encode_utf8_valid_utf8(s@);
            encode_utf8_decode_utf8(s@);
        }
        let symbols = decode_code_points(bytes);
        let n = symbols.len();
        let mut out: Vec<A> = Vec::new();
        let mut i: usize = 0;
        assert(symbols@.subrange(0, n as int) =~= symbols@);
        assert forall|k: int| 0 <= k < n implies is_scalar(#[trigger] symbols@[k]) by {
            char_is_scalar(s@[k]);
        }
        while i < n
            invariant
                i <= n,
                n == symbols@.len(),
                symbols@ == symbols_of(s@),
                forall|k: int| 0 <= k < n ==> is_scalar(#[trigger] symbols@[k]),
                forall|k: int| 0 <= k < out@.len() ==> is_scalar(#[trigger] out@[k]),
                unescape_symbols(symbols@) == match unescape_symbols(
                    symbols@.subrange(i as int, n as int),
                ) {
                    Some(t) => Some(out@ + t),
                    None => None,
                },
            decreases n - i,
        {
            let ghost here = symbols@.subrange(i as int, n as int);
            let c = symbols[i];
            assert(here[0] == c);
            if c == 0x5C {
                if i + 1 < n {
                    let d = unescape_u32(symbols[i + 1]);
                    assert(here[1] == symbols@[i + 1]);
                    assert(here.subrange(2, here.len() as int) =~= symbols@.subrange(
                        i + 2,
                        n as int,
                    ));
                    proof {
                        match unescape_symbols(symbols@.subrange(i + 2, n as int)) {
                            Some(t) => {
                                assert(out@.push(d) + t =~= out@ + (seq![d] + t));
                            },
                            None => {},
                        }
                    }
                    out.push(d);
                    i = i + 2;
                } else {
                    return Err(
                        CompErr::Parse(pos, "String literal has dangling backslash".to_owned()),
                    );
                }
            } else {
                assert(here.subrange(1, here.len() as int) =~= symbols@.subrange(i + 1, n as int));
                proof {
                    match unescape_symbols(symbols@.subrange(i + 1, n as int)) {
                        Some(t) => {
                            assert(out@.push(c) + t =~= out@ + (seq![c] + t));
                        },
                        None => {},
                    }
                }
                out.push(c);
                i = i + 1;
            }
        }
        assert(out@ + Seq::<A>::empty() =~= out@);
        let r = IntSeq::from_symbols(out.as_slice());
        Ok(r.unwrap())
    }

    /// The symbols of the string, to be taken one by one from either end.
    pub fn iter(&self) -> (r: crate::exact_size_chars::ExactSizeChars<'_>)
        ensures
            r@ == self.symbols(),
    {
        proof {
            use_type_invariant(self);
        }
        crate::exact_size_chars::ExactSizeChars::new(self.content.as_slice(), self.chars_len)
    }

    /// The symbols of the string, in order.
    pub fn to_symbols(&self) -> (r: Vec<A>)
        ensures
            r@ == self.symbols(),
    {
        proof {
            use_type_invariant(self);
        }
        decode_code_points(self.content.as_slice())
    }

    /// The string `self` followed by `other`.
    pub fn concat(&self, other: &IntSeq) -> (r: IntSeq)
        ensures
            r@ == self@ + other@,
    {
        proof {
            use_type_invariant(self);
            use_type_invariant(other);
            lemma_decode_utf8_concat(self.content@, other.content@);
        }
        let mut content = self.content.clone();
        content.extend_from_slice(other.content.as_slice());
        let bytes_len = content.len();
        proof {
            assert(content@ =~= self.content@ + other.content@);
            lemma_decode_utf8_len(content@);
            assert(self.chars_len + other.chars_len <= bytes_len);
        }
        IntSeq { content, chars_len: self.chars_len + other.chars_len }
    }

    /// Appends `other` to `self`.
    pub fn extend(&mut self, other: &IntSeq)
        ensures
            final(self)@ == old(self)@ + other@,
    {
        let r = self.concat(other);
        *self = r;
    }
}

impl PartialEq for IntSeq {
    fn eq(&self, other: &Self) -> (r: bool) {
        proof {
            use_type_invariant(self);
            use_type_invariant(other);
            decode_utf8_encode_utf8(self.content@);
            decode_utf8_encode_utf8(other.content@);
            if self.content@ =~= other.content@ {
                assert(self@ == other@);
            }
        }
        self.chars_len == other.chars_len && self.content == other.content
    }
}

impl PartialEqSpecImpl for IntSeq {
    open spec fn obeys_eq_spec() -> bool {
        true
    }

    open spec fn eq_spec(&self, other: &Self) -> bool {
        self@ == other@
    }
}

impl Eq for IntSeq {

}

impl core::ops::Add<&IntSeq> for &IntSeq {
    type Output = IntSeq;

    fn add(self, rhs: &IntSeq) -> (r: IntSeq)
        ensures
            r@ == self@ + rhs@,
    {
        self.concat(rhs)
    }
}

impl AddSpecImpl<&IntSeq> for &IntSeq {
    open spec fn obeys_add_spec() -> bool {
        false
    }

    open spec fn add_req(self, rhs: &IntSeq) -> bool {
        true
    }

    open spec fn add_spec(self, rhs: &IntSeq) -> IntSeq {
        arbitrary()
    }
}

impl core::ops::AddAssign<&IntSeq> for IntSeq {
    fn add_assign(&mut self, rhs: &IntSeq)
        ensures
            final(self)@ == old(self)@ + rhs@,
    {
        self.extend(rhs)
    }
}

impl Clone for IntSeq {
    fn clone(&self) -> (r: Self)
        ensures
            r@ == self@,
    {
        proof {
            use_type_invariant(self);
        }
        IntSeq { content: self.content.clone(), chars_len: self.chars_len }
    }
}

} // verus!
