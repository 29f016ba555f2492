use vstd::prelude::*;
use vstd::utf8::*;

verus! {

/// Mask of the value bits of a continuation byte.
pub const CONT_MASK: u8 = 0x3F;

/// Value of the tag bits of a continuation byte.
pub const TAG_CONT_U8: u8 = 0x80;

/// The initial accumulator for the leading byte of a sequence of `width` bytes:
/// its low `7 - width` bits.
pub fn utf8_first_byte(byte: u8, width: u32) -> (r: u32)
    requires
        2 <= width <= 4,
    ensures
        width == 2 ==> r == leading_bits_width_2(byte),
        width == 3 ==> r == leading_bits_width_3(byte),
        width == 4 ==> r == leading_bits_width_4(byte),
{
    if width == 2 {
        (byte & 0x1F) as u32
    } else if width == 3 {
        (byte & 0x0F) as u32
    } else {
        (byte & 0x07) as u32
    }
}

/// The accumulator `ch` extended by the six value bits of a continuation byte.
pub fn utf8_acc_cont_byte(ch: u32, byte: u8) -> (r: u32)
    ensures
        r == (ch << 6) | continuation_bits(byte),
{
    (ch << 6) | ((byte & CONT_MASK) as u32)
}

/// Whether the byte is a continuation byte, that is, has the form `10xxxxxx`.
pub fn utf8_is_cont_byte(byte: u8) -> (r: bool)
    ensures
        r == is_continuation_byte(byte),
{
    proof {
        utf8_byte_ranges_bitwise(byte);
    }
    (byte & 0xC0) == TAG_CONT_U8
}


/// The bytes of `bytes` from `pos` to the end.
pub open spec fn tail(bytes: Seq<u8>, pos: int) -> Seq<u8> {
    bytes.subrange(pos, bytes.len() as int)
}

/// Decodes the scalar that starts at `pos`, if the bytes do not end there,
/// and returns it with the position of the scalar after it.
pub fn next_code_point(bytes: &[u8], pos: usize) -> (r: Option<(u32, usize)>)
    requires
        pos <= bytes.len(),
        valid_utf8(tail(bytes@, pos as int)),
    ensures
        pos == bytes.len() ==> r.is_none(),
        pos < bytes.len() ==> r == Some(
            (
                decode_first_scalar(tail(bytes@, pos as int)),
                (pos + length_of_first_scalar(tail(bytes@, pos as int))) as usize,
            ),
        ),
        r matches Some((c, next)) ==> pos < next <= bytes.len() && tail(bytes@, next as int)
            == pop_first_scalar(tail(bytes@, pos as int)) && valid_utf8(tail(bytes@, next as int))
            && is_scalar(c),
{
    if pos >= bytes.len() {
        None
    } else {
        Some(scalar_at(bytes, pos))
    }
}

/// Decodes the scalar that starts at `pos`, and returns it with the position of
/// the scalar after it.
pub fn scalar_at(bytes: &[u8], pos: usize) -> (r: (u32, usize))
    requires
        pos < bytes.len(),
        valid_utf8(tail(bytes@, pos as int)),
    ensures
        r.0 == decode_first_scalar(tail(bytes@, pos as int)),
        r.1 == pos + length_of_first_scalar(tail(bytes@, pos as int)),
        pos < r.1 <= bytes.len(),
        tail(bytes@, r.1 as int) == pop_first_scalar(tail(bytes@, pos as int)),
        valid_utf8(tail(bytes@, r.1 as int)),
        is_scalar(r.0),
{
    let ghost rest = tail(bytes@, pos as int);
    assert(rest.len() > 0);
    assert(valid_first_scalar(rest) && valid_utf8(pop_first_scalar(rest)));
    assert(rest[0] == bytes@[pos as int]);
    assert(pop_first_scalar(rest) =~= tail(bytes@, pos + length_of_first_scalar(rest)));
    let b0 = bytes[pos];
    proof {
        utf8_byte_ranges_bitwise(b0);
        lemma_first_scalar_is_scalar(rest);
    }
    if b0 < 0x80 {
        ((b0 & 0x7F) as u32, pos + 1)
    } else if b0 < 0xE0 {
        assert(rest[1] == bytes@[pos + 1]);
        let b1 = bytes[pos + 1];
        let ch = utf8_first_byte(b0, 2);
        (utf8_acc_cont_byte(ch, b1), pos + 2)
    } else if b0 < 0xF0 {
        assert(rest[1] == bytes@[pos + 1]);
        assert(rest[2] == bytes@[pos + 2]);
        let b1 = bytes[pos + 1];
        let b2 = bytes[pos + 2];
        let ch = utf8_first_byte(b0, 3);
        let ch = utf8_acc_cont_byte(ch, b1);
        proof {
            lemma_acc_width_3(b0, b1, b2);
        }
        (utf8_acc_cont_byte(ch, b2), pos + 3)
    } else {
        assert(rest[1] == bytes@[pos + 1]);
        assert(rest[2] == bytes@[pos + 2]);
        assert(rest[3] == bytes@[pos + 3]);
        let b1 = bytes[pos + 1];
        let b2 = bytes[pos + 2];
        let b3 = bytes[pos + 3];
        let ch = utf8_first_byte(b0, 4);
        let ch = utf8_acc_cont_byte(ch, b1);
        let ch = utf8_acc_cont_byte(ch, b2);
        proof {
            lemma_acc_width_4(b0, b1, b2, b3);
        }
        (utf8_acc_cont_byte(ch, b3), pos + 4)
    }
}

proof fn lemma_acc_width_3(b0: u8, b1: u8, b2: u8)
    by (bit_vector)
    ensures
        ((((b0 & 0x0F) as u32) << 6 | ((b1 & 0x3F) as u32)) << 6) | ((b2 & 0x3F) as u32) == (((b0
            & 0x0F) as u32) << 12) | (((b1 & 0x3F) as u32) << 6) | ((b2 & 0x3F) as u32),
{
}

proof fn lemma_acc_width_4(b0: u8, b1: u8, b2: u8, b3: u8)
    by (bit_vector)
    ensures
        ((((((b0 & 0x07) as u32) << 6 | ((b1 & 0x3F) as u32)) << 6) | ((b2 & 0x3F) as u32)) << 6)
            | ((b3 & 0x3F) as u32) == (((b0 & 0x07) as u32) << 18) | (((b1 & 0x3F) as u32) << 12)
            | (((b2 & 0x3F) as u32) << 6) | ((b3 & 0x3F) as u32),
{
}

/// The first scalar of a well-formed sequence is a Unicode scalar value.
pub proof fn lemma_first_scalar_is_scalar(bytes: Seq<u8>)
    requires
        valid_first_scalar(bytes),
    ensures
        is_scalar(decode_first_scalar(bytes)),
{
    let b0 = bytes[0];
    if is_leading_byte_width_1(b0) {
        assert((b0 & 0x7F) as u32 <= 0x7F) by (bit_vector);
    } else if is_leading_byte_width_2(b0) {
        let b1 = bytes[1];
        assert((((b0 & 0x1F) as u32) << 6) | ((b1 & 0x3F) as u32) <= 0x7FF) by (bit_vector);
    } else if is_leading_byte_width_3(b0) {
        let b1 = bytes[1];
        let b2 = bytes[2];
        assert((((b0 & 0x0F) as u32) << 12) | (((b1 & 0x3F) as u32) << 6) | ((b2 & 0x3F) as u32)
            <= 0xFFFF) by (bit_vector);
    } else {
    }
}


/// Encoding distributes over concatenation.
pub proof fn lemma_encode_utf8_concat(c1: Seq<char>, c2: Seq<char>)
    ensures
        encode_utf8(c1 + c2) == encode_utf8(c1) + encode_utf8(c2),
    decreases c1.len(),
{
    if c1.len() == 0 {
        assert(c1 + c2 =~= c2);
        assert(encode_utf8(c1) + encode_utf8(c2) =~= encode_utf8(c2));
    } else {
        lemma_encode_utf8_concat(c1.drop_first(), c2);
        assert((c1 + c2).drop_first() =~= c1.drop_first() + c2);
        assert(encode_utf8(c1 + c2) =~= encode_utf8(c1) + encode_utf8(c2));
    }
}

/// Decoding distributes over the concatenation of two well-formed sequences.
pub proof fn lemma_decode_utf8_concat(b1: Seq<u8>, b2: Seq<u8>)
    requires
        valid_utf8(b1),
        valid_utf8(b2),
    ensures
        valid_utf8(b1 + b2),
        decode_utf8(b1 + b2) == decode_utf8(b1) + decode_utf8(b2),
{
    let c1 = decode_utf8(b1);
    let c2 = decode_utf8(b2);
    decode_utf8_encode_utf8(b1);
    decode_utf8_encode_utf8(b2);
    lemma_encode_utf8_concat(c1, c2);
    encode_utf8_valid_utf8(c1 + c2);
    encode_utf8_decode_utf8(c1 + c2);
}

/// A well-formed sequence holds at most as many scalars as bytes.
pub proof fn lemma_decode_utf8_len(bytes: Seq<u8>)
    requires
        valid_utf8(bytes),
    ensures
        decode_utf8(bytes).len() <= bytes.len(),
    decreases bytes.len(),
{
    if bytes.len() > 0 {
        lemma_decode_utf8_len(pop_first_scalar(bytes));
    }
}

/// The encoding of a single scalar is well formed and decodes to that scalar.
pub proof fn lemma_encode_scalar_single(c: char)
    ensures
        valid_utf8(encode_scalar(c as u32)),
        decode_utf8(encode_scalar(c as u32)) == seq![c],
{
    let cs = seq![c];
    assert(cs.drop_first() =~= Seq::<char>::empty());
    assert(encode_utf8(cs) =~= encode_scalar(c as u32)) by {
        reveal_with_fuel(encode_utf8, 2);
    }
    encode_utf8_valid_utf8(cs);
    encode_utf8_decode_utf8(cs);
}

/// Appends the encoding of the scalar `c` to `out`.
pub fn encode_code_point(c: u32, out: &mut Vec<u8>)
    requires
        is_scalar(c),
    ensures
        final(out)@ == old(out)@ + encode_scalar(c),
{
    if c < 0x80 {
        out.push((c & 0x7F) as u8);
    } else if c < 0x800 {
        out.push(0xC0 | (((c >> 6) & 0x1F) as u8));
        out.push(0x80 | ((c & 0x3F) as u8));
    } else if c < 0x10000 {
        out.push(0xE0 | (((c >> 12) & 0x0F) as u8));
        out.push(0x80 | (((c >> 6) & 0x3F) as u8));
        out.push(0x80 | ((c & 0x3F) as u8));
    } else {
        out.push(0xF0 | (((c >> 18) & 0x7) as u8));
        out.push(0x80 | (((c >> 12) & 0x3F) as u8));
        out.push(0x80 | (((c >> 6) & 0x3F) as u8));
        out.push(0x80 | ((c & 0x3F) as u8));
    }
    assert(out@ =~= old(out)@ + encode_scalar(c));
}

/// The number of scalars encoded in a well-formed byte sequence.
pub fn count_code_points(bytes: &[u8]) -> (r: usize)
    requires
        valid_utf8(bytes@),
    ensures
        r == decode_utf8(bytes@).len(),
{
    let mut pos: usize = 0;
    let mut count: usize = 0;
    assert(tail(bytes@, 0) =~= bytes@);
    while pos < bytes.len()
        invariant
            pos <= bytes.len(),
            count <= pos,
            valid_utf8(tail(bytes@, pos as int)),
            count + decode_utf8(tail(bytes@, pos as int)).len() == decode_utf8(bytes@).len(),
        decreases bytes.len() - pos,
    {
        let (_, next) = scalar_at(bytes, pos);
        pos = next;
        count = count + 1;
    }
    count
}

/// Decodes a well-formed byte sequence into its scalars.
pub fn decode_code_points(bytes: &[u8]) -> (r: Vec<u32>)
    requires
        valid_utf8(bytes@),
    ensures
        r@ == decode_utf8(bytes@).map_values(|c: char| c as u32),
{
    let mut pos: usize = 0;
    let mut out: Vec<u32> = Vec::new();
    assert(tail(bytes@, 0) =~= bytes@);
    let ghost all = decode_utf8(bytes@).map_values(|c: char| c as u32);
    while pos < bytes.len()
        invariant
            pos <= bytes.len(),
            valid_utf8(tail(bytes@, pos as int)),
            all == decode_utf8(bytes@).map_values(|c: char| c as u32),
            out@ + decode_utf8(tail(bytes@, pos as int)).map_values(|c: char| c as u32) == all,
        decreases bytes.len() - pos,
    {
        let ghost before = decode_utf8(tail(bytes@, pos as int));
        let (c, next) = scalar_at(bytes, pos);
        proof {
            let after = decode_utf8(tail(bytes@, next as int));
            assert(before == seq![c as char] + after);
            assert((c as char) as u32 == c);
            assert(before.map_values(|c: char| c as u32) =~= seq![c] + after.map_values(
                |c: char| c as u32,
            ));
            assert(out@.push(c) + after.map_values(|c: char| c as u32) =~= out@ + (seq![c]
                + after.map_values(|c: char| c as u32)));
        }
        out.push(c);
        pos = next;
    }
    assert(decode_utf8(tail(bytes@, pos as int)).len() == 0);
    assert(out@ =~= all);
    out
}


/// In a well-formed sequence that is not empty the last scalar begins at a
/// character boundary, and its bytes alone are a well-formed sequence of one
/// scalar.
pub proof fn lemma_last_scalar_start(bytes: Seq<u8>) -> (j: int)
    requires
        valid_utf8(bytes),
        bytes.len() > 0,
    ensures
        0 <= j < bytes.len(),
        is_char_boundary(bytes, j),
        valid_first_scalar(bytes.subrange(j, bytes.len() as int)),
        length_of_first_scalar(bytes.subrange(j, bytes.len() as int)) == bytes.len() - j,
    decreases bytes.len(),
{
    let first = length_of_first_scalar(bytes);
    let rest = pop_first_scalar(bytes);
    if rest.len() == 0 {
        assert(bytes.subrange(0, bytes.len() as int) =~= bytes);
        0
    } else {
        let j = lemma_last_scalar_start(rest);
        assert(rest.subrange(j, rest.len() as int) =~= bytes.subrange(
            j + first,
            bytes.len() as int,
        ));
        j + first
    }
}

/// The last scalar of a well-formed sequence is the last character that the
/// sequence decodes to, and what stands before it is well formed.
pub proof fn lemma_decode_last(bytes: Seq<u8>)
    requires
        valid_utf8(bytes),
        bytes.len() > 0,
    ensures
        1 <= length_of_last_scalar(bytes) <= bytes.len(),
        length_of_last_scalar(bytes) <= 4,
        valid_utf8(bytes.subrange(0, bytes.len() - length_of_last_scalar(bytes))),
        decode_utf8(bytes) == decode_utf8(
            bytes.subrange(0, bytes.len() - length_of_last_scalar(bytes)),
        ).push(decode_last_scalar(bytes) as char),
        is_scalar(decode_last_scalar(bytes)),
{
    let n = bytes.len() as int;
    let j = lemma_last_scalar_start(bytes);
    let last = bytes.subrange(j, n);
    assert(forall|i: int| 0 <= i < last.len() ==> last[i] == bytes[j + i]);
    assert(last[0] == bytes[j]);
    if n - j >= 2 {
        assert(last[1] == bytes[j + 1]);
    }
    if n - j >= 3 {
        assert(last[2] == bytes[j + 2]);
    }
    if n - j >= 4 {
        assert(last[3] == bytes[j + 3]);
    }
    assert(length_of_last_scalar(bytes) == n - j);
    assert(decode_last_scalar(bytes) == decode_first_scalar(last));
    valid_utf8_split(bytes, j);
    decode_utf8_split(bytes, j);
    assert(pop_first_scalar(last) =~= Seq::<u8>::empty());
    assert(decode_utf8(pop_first_scalar(last)) =~= Seq::<char>::empty());
    assert(decode_utf8(last) =~= seq![decode_first_scalar(last) as char]);
    assert(decode_utf8(bytes.subrange(0, j)) + seq![decode_first_scalar(last) as char]
        =~= decode_utf8(bytes.subrange(0, j)).push(decode_last_scalar(bytes) as char));
    lemma_first_scalar_is_scalar(last);
}

/// Decodes the scalar that ends before `end`, if any bytes stand before
/// `end`, and returns it with the position at which it begins.
pub fn next_code_point_reverse(bytes: &[u8], end: usize) -> (r: Option<(u32, usize)>)
    requires
        end <= bytes.len(),
        valid_utf8(bytes@.subrange(0, end as int)),
    ensures
        end == 0 ==> r.is_none(),
        end > 0 ==> r == Some(
            (
                decode_last_scalar(bytes@.subrange(0, end as int)),
                (end - length_of_last_scalar(bytes@.subrange(0, end as int))) as usize,
            ),
        ),
        r matches Some((c, start)) ==> start < end && valid_utf8(bytes@.subrange(0, start as int))
            && decode_utf8(bytes@.subrange(0, end as int)) == decode_utf8(
            bytes@.subrange(0, start as int),
        ).push(c as char) && is_scalar(c),
{
    if end == 0 {
        None
    } else {
        Some(scalar_before(bytes, end))
    }
}

/// Decodes the scalar that ends before `end`, and returns it with the position
/// at which it begins.
pub fn scalar_before(bytes: &[u8], end: usize) -> (r: (u32, usize))
    requires
        0 < end <= bytes.len(),
        valid_utf8(bytes@.subrange(0, end as int)),
    ensures
        r.0 == decode_last_scalar(bytes@.subrange(0, end as int)),
        r.1 == end - length_of_last_scalar(bytes@.subrange(0, end as int)),
        r.1 < end,
        valid_utf8(bytes@.subrange(0, r.1 as int)),
        decode_utf8(bytes@.subrange(0, end as int)) == decode_utf8(
            bytes@.subrange(0, r.1 as int),
        ).push(r.0 as char),
        is_scalar(r.0),
{
    let ghost head = bytes@.subrange(0, end as int);
    proof {
        lemma_decode_last(head);
        assert(head.subrange(0, head.len() - length_of_last_scalar(head)) =~= bytes@.subrange(
            0,
            end - length_of_last_scalar(head),
        ));
        assert(head[end - 1] == bytes@[end - 1]);
    }
    let w = bytes[end - 1];
    proof {
        utf8_byte_ranges_bitwise(w);
    }
    if !utf8_is_cont_byte(w) {
        proof {
            valid_utf8_last(head);
        }
        return ((w & 0x7F) as u32, end - 1);
    }
    assert(head[end - 2] == bytes@[end - 2]);
    let z = bytes[end - 2];
    if !utf8_is_cont_byte(z) {
        let ch = utf8_first_byte(z, 2);
        return (utf8_acc_cont_byte(ch, w), end - 2);
    }
    assert(head[end - 3] == bytes@[end - 3]);
    let y = bytes[end - 3];
    if !utf8_is_cont_byte(y) {
        let ch = utf8_first_byte(y, 3);
        let ch = utf8_acc_cont_byte(ch, z);
        proof {
            lemma_acc_width_3(y, z, w);
        }
        return (utf8_acc_cont_byte(ch, w), end - 3);
    }
    assert(head[end - 4] == bytes@[end - 4]);
    let x = bytes[end - 4];
    let ch = utf8_first_byte(x, 4);
    let ch = utf8_acc_cont_byte(ch, y);
    let ch = utf8_acc_cont_byte(ch, z);
    proof {
        lemma_acc_width_4(x, y, z, w);
    }
    (utf8_acc_cont_byte(ch, w), end - 4)
}

} // verus!
