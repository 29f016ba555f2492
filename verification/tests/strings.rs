use solomonoff::exact_size_chars::ExactSizeChars;
use solomonoff::int_queue::IntQueue;
use solomonoff::int_seq::IntSeq;
use solomonoff::ranged_serializers::{
    escape_symbol, serialise_exclusive_range, serialise_inclusive_range, serialise_literal,
    serialise_symbol, unescape_a, unescape_character, unescape_u32, unescape_u8,
};
use solomonoff::seq::Sequence;
use solomonoff::text::{push_decimal, push_digits, push_str};
use solomonoff::utf8::{
    count_code_points, decode_code_points, encode_code_point, next_code_point,
    next_code_point_reverse, utf8_acc_cont_byte, utf8_first_byte, utf8_is_cont_byte,
};

#[test]
fn seq_test_eq1() {
    assert_eq!(Sequence::from("a".as_bytes()).as_slice(), Sequence::from("a".as_bytes()).as_slice());
    assert!(Sequence::from("a".as_bytes()).same("a".as_bytes()));
}

#[test]
fn seq_test_eq2() {
    assert_ne!(Sequence::from("aa".as_bytes()).as_slice(), Sequence::from("a".as_bytes()).as_slice());
    assert!(!Sequence::from("aa".as_bytes()).same("a".as_bytes()));
}

#[test]
fn seq_test_eq3() {
    assert_ne!(Sequence::from("".as_bytes()).as_slice(), Sequence::from("a".as_bytes()).as_slice());
}

#[test]
fn seq_test_eq4() {
    assert_ne!(Sequence::from("aa".as_bytes()).as_slice(), Sequence::from("".as_bytes()).as_slice());
}

#[test]
fn seq_test_eq5() {
    assert_eq!(Sequence::from("".as_bytes()).as_slice(), Sequence::from("".as_bytes()).as_slice());
    assert!(Sequence::from("".as_bytes()).same("".as_bytes()));
}

#[test]
fn test_split1() {
    let (pre, post) = Sequence::from("ab".as_bytes()).split(1);
    assert_eq!(pre.as_slice(), "a".as_bytes());
    assert_eq!(post.as_slice(), "b".as_bytes());
}

#[test]
fn test_split2() {
    let (pre, post) = Sequence::from("abcdefg".as_bytes()).split(4);
    assert_eq!(pre.as_slice(), "abcd".as_bytes());
    assert_eq!(post.as_slice(), "efg".as_bytes());
}

#[test]
fn test_split3() {
    let (pre, post) = Sequence::from("abcdefg".as_bytes()).split(0);
    assert_eq!(pre.as_slice(), "".as_bytes());
    assert_eq!(post.as_slice(), "abcdefg".as_bytes());
}

#[test]
fn test_split4() {
    let (pre, post) = Sequence::from("abcdefg".as_bytes()).split(7);
    assert_eq!(pre.as_slice(), "abcdefg".as_bytes());
    assert_eq!(post.as_slice(), "".as_bytes());
}

#[test]
fn sequences_grow_at_both_ends() {
    let mut s = Sequence::from("bc".as_bytes());
    s.prepend_slice("a".as_bytes());
    s.extend_slice("d".as_bytes());
    s.extend(&Sequence::singleton(b'e'));
    s.prepend(&Sequence::from("_".as_bytes()));
    assert_eq!(s.as_slice(), "_abcde".as_bytes());
    assert_eq!(s.len(), 6);
    assert!(!s.is_empty());
    assert!(Sequence::<u8>::empty().is_empty());
    assert_eq!(s.concat(&Sequence::from("f".as_bytes())).as_slice(), "_abcdef".as_bytes());
    assert_eq!(s.concat_slice("g".as_bytes()).as_slice(), "_abcdeg".as_bytes());
    assert_eq!(Sequence::concat_slices(&[1u8], &[2u8, 3u8]).as_slice(), &[1, 2, 3]);
    assert_eq!(Sequence::filled(7u8, 3).as_slice(), &[7, 7, 7]);
    let rest = s.cut_off(2);
    assert_eq!((s.as_slice(), rest.as_slice()), ("_a".as_bytes(), "bcde".as_bytes()));
    assert_eq!(s.clone().iter(), s.as_slice());
    s.iter_mut().push(b'!');
    assert_eq!(s.as_slice(), "_a!".as_bytes());
}

#[test]
fn longest_common_prefix() {
    let s = Sequence::from("abcd".as_bytes());
    assert_eq!(s.lcp("abxy".as_bytes()), 2);
    assert_eq!(s.lcp("abcdef".as_bytes()), 4);
    assert_eq!(s.lcp("ab".as_bytes()), 2);
    assert_eq!(s.lcp("xbcd".as_bytes()), 0);
    assert_eq!(s.lcp("".as_bytes()), 0);
}

#[test]
fn sequences_of_bytes_as_strings() {
    assert_eq!(Sequence::from("é".as_bytes()).as_str(), Some("é"));
    assert_eq!(Sequence::from(&"é".as_bytes()[..1]).as_str(), None);
    assert_eq!(Sequence::<u8>::empty().as_str(), Some(""));
}

#[test]
fn int_seq_counts_symbols_and_bytes() {
    let s = IntSeq::from("a☺😂");
    assert_eq!(s.len(), 3);
    assert_eq!(s.bytes_len(), 8);
    assert!(!s.is_empty());
    assert_eq!(s.to_symbols(), vec![0x61, 0x263A, 0x1F602]);
    assert_eq!(s.as_str(), "a☺😂");
    assert_eq!(s.as_bytes(), "a☺😂".as_bytes());
    assert_eq!(IntSeq::from_symbols(&[0x61, 0x263A, 0x1F602]), Some(s));
    assert_eq!(IntSeq::from_symbols(&[0x61, 0xD800]), None);
    assert_eq!(IntSeq::from_utf8("ab".as_bytes()), IntSeq::from("ab"));
    assert!(IntSeq::epsilon().is_empty());
}

#[test]
fn int_seq_singleton() {
    assert_eq!(IntSeq::singleton(0x61), Some(IntSeq::from("a")));
    assert_eq!(IntSeq::singleton(0x10FFFF).unwrap().bytes_len(), 4);
    assert_eq!(IntSeq::singleton(0), Some(IntSeq::from("\0")));
    assert_eq!(IntSeq::singleton(0xD800), None);
    assert_eq!(IntSeq::singleton(0xDFFF), None);
    assert_eq!(IntSeq::singleton(0x110000), None);
    assert_eq!(IntSeq::singleton(u32::MAX), None);
}

#[test]
fn int_seq_concat_and_extend() {
    let a = IntSeq::from("é");
    let b = IntSeq::from("😂");
    let c = a.concat(&b);
    assert_eq!(c, IntSeq::from("é😂"));
    assert_eq!(c.len(), 2);
    let mut d = IntSeq::from("x");
    d.extend(&c);
    assert_eq!(d.as_str(), "xé😂");
}

#[test]
fn int_seq_iterates_from_either_end() {
    let s = IntSeq::from("a☺😂é");
    let mut it = s.iter();
    assert_eq!(it.len(), 4);
    assert_eq!(it.size_hint(), (4, Some(4)));
    assert_eq!(it.next(), Some(0x61));
    assert_eq!(it.next_back(), Some(0xE9));
    assert_eq!(it.len(), 2);
    assert_eq!(it.next_back(), Some(0x1F602));
    assert_eq!(it.next(), Some(0x263A));
    assert_eq!(it.next(), None);
    assert_eq!(it.next_back(), None);
    assert_eq!(it.count(), 0);
    assert_eq!(ExactSizeChars::from("ab").last(), Some(0x62));
    assert_eq!(ExactSizeChars::from("").last(), None);
    assert_eq!(ExactSizeChars::new("é".as_bytes(), 1).count(), 1);
}

#[test]
fn literals_are_unescaped() {
    let a = IntSeq::from_literal(solomonoff::v::V::UNKNOWN, "a\\\\b\\zc").unwrap();
    assert_eq!(a.as_str(), "a\\bzc");
    assert!(IntSeq::from_literal(solomonoff::v::V::UNKNOWN, "").unwrap().is_empty());
    assert!(IntSeq::from_literal(solomonoff::v::V::UNKNOWN, "ab\\").is_err());
    assert!(IntSeq::from_literal(solomonoff::v::V::UNKNOWN, "\\\\").is_ok());
    assert_eq!(IntSeq::from_literal(solomonoff::v::V::UNKNOWN, "\\é").unwrap().as_str(), "é");
}

#[test]
fn utf8_bytes() {
    assert!(utf8_is_cont_byte(0x80));
    assert!(utf8_is_cont_byte(0xBF));
    assert!(!utf8_is_cont_byte(0x7F));
    assert!(!utf8_is_cont_byte(0xC0));
    assert_eq!(utf8_acc_cont_byte(0b101, 0b1011_0011), 0b101_110011);
    assert_eq!(utf8_first_byte(0b1101_1111, 2), 0b1_1111);
    assert_eq!(utf8_first_byte(0b1110_1010, 3), 0b1010);
    assert_eq!(utf8_first_byte(0b1111_0101, 4), 0b101);
}

#[test]
fn utf8_decoding_and_encoding() {
    let text = "a¬☺😂";
    let bytes = text.as_bytes();
    assert_eq!(next_code_point(bytes, 0), Some((0x61, 1)));
    assert_eq!(next_code_point(bytes, 1), Some((0xAC, 3)));
    assert_eq!(next_code_point(bytes, 3), Some((0x263A, 6)));
    assert_eq!(next_code_point(bytes, 6), Some((0x1F602, 10)));
    assert_eq!(next_code_point_reverse(bytes, 10), Some((0x1F602, 6)));
    assert_eq!(next_code_point_reverse(bytes, 6), Some((0x263A, 3)));
    assert_eq!(next_code_point_reverse(bytes, 3), Some((0xAC, 1)));
    assert_eq!(next_code_point_reverse(bytes, 1), Some((0x61, 0)));
    assert_eq!(next_code_point(bytes, 10), None);
    assert_eq!(next_code_point_reverse(bytes, 0), None);
    let euro = [0x61u8, 0xE2, 0x82, 0xAC];
    assert_eq!(next_code_point_reverse(&euro, 4), Some((0x20AC, 1)));
    assert_eq!(next_code_point_reverse(&euro, 1), Some((0x61, 0)));
    assert_eq!(next_code_point_reverse(&euro, 0), None);
    assert_eq!(count_code_points(bytes), 4);
    assert_eq!(decode_code_points(bytes), vec![0x61, 0xAC, 0x263A, 0x1F602]);
    let mut out = Vec::new();
    for c in [0x61, 0xAC, 0x263A, 0x1F602, 0x7FF, 0x800, 0xFFFF, 0x10000, 0x10FFFF, 0x7F, 0x80] {
        encode_code_point(c, &mut out);
    }
    let expected: String = [0x61, 0xAC, 0x263A, 0x1F602, 0x7FF, 0x800, 0xFFFF, 0x10000, 0x10FFFF, 0x7F, 0x80]
        .iter()
        .map(|&c| char::from_u32(c).unwrap())
        .collect();
    assert_eq!(out, expected.as_bytes());
}

#[test]
fn numbers_are_written_in_decimal() {
    let mut out = Vec::new();
    push_decimal(0, &mut out);
    out.push(' ');
    push_decimal(-1, &mut out);
    out.push(' ');
    push_decimal(1203, &mut out);
    out.push(' ');
    push_decimal(i64::MIN, &mut out);
    out.push(' ');
    push_digits(u64::MAX, &mut out);
    push_str(" é", &mut out);
    let text: String = out.iter().collect();
    assert_eq!(text, "0 -1 1203 -9223372036854775808 18446744073709551615 é");
}

#[test]
fn escapes() {
    for (escaped, plain) in [('n', '\n'), ('r', '\r'), ('0', '\0'), ('t', '\t'), ('b', 7 as char), ('f', 12 as char), ('x', 'x'), ('\\', '\\')] {
        assert_eq!(unescape_character(escaped), plain);
        assert_eq!(unescape_u32(escaped as u32), plain as u32);
        assert_eq!(unescape_a(escaped as u32), plain as u32);
        assert_eq!(unescape_u8(escaped as u8), plain as u8);
    }
    assert_eq!(unescape_u32(0x263A), 0x263A);
    assert_eq!(escape_symbol(10), "\\n");
    assert_eq!(escape_symbol(13), "\\r");
    assert_eq!(escape_symbol(0), "\\0");
    assert_eq!(escape_symbol(9), "\\t");
    assert_eq!(escape_symbol(7), "\\b");
    assert_eq!(escape_symbol(12), "\\f");
    assert_eq!(escape_symbol(0x61), "a");
    assert_eq!(escape_symbol(0x263A), "☺");
    assert_eq!(escape_symbol(0xD800), "55296");
    assert_eq!(serialise_symbol(0x61), "a");
    assert_eq!(serialise_symbol(10), "\\n");
    assert_eq!(serialise_symbol(0x20), "32");
    assert_eq!(serialise_symbol(0x263A), "9786");
}

#[test]
fn literals_and_ranges_are_written() {
    assert_eq!(serialise_literal(&[]), "''");
    assert_eq!(serialise_literal(&[0x61, 0x62]), "'ab'");
    assert_eq!(serialise_literal(&[0x61, 10, 0x20]), "'a\\n '");
    assert_eq!(serialise_literal(&[0x263A]), "<9786>");
    assert_eq!(serialise_literal(&[0x263A, 1]), "<9786 1>");
    assert_eq!(serialise_literal(&[0x61, 0x263A, 0x62]), "'a'<9786>'b'");
    assert_eq!(serialise_literal(&[1, 0x61]), "<1>'a'");
    assert_eq!(serialise_inclusive_range(0x61, 0x61), "a");
    assert_eq!(serialise_inclusive_range(0x61, 0x7A), "a-z");
    assert_eq!(serialise_exclusive_range(0x60, 0x7A), "a-z");
    assert_eq!(serialise_exclusive_range(0x60, 0x61), "a");
    assert_eq!(serialise_exclusive_range(9, 10), "\\n");
}

#[test]
fn queues() {
    let q = IntQueue::collect(&[1, 2, 3]);
    assert!(!q.is_end());
    assert!(!q.has_cycle());
    assert_eq!(q.unwrap().borrow().0, 1);
    assert_eq!(q.unwrap().target().unwrap().borrow().0, 2);
    assert!(IntQueue::end().is_end());
    let mut r = IntQueue::next(9, IntQueue::end());
    let cut = r.cut();
    assert!(r.is_end());
    assert_eq!(cut.unwrap().borrow().0, 9);
    assert!(cut.unwrap().target().is_end());
    let s = IntQueue::from("é!");
    assert_eq!(s.unwrap().borrow().0, 0xE9);
    assert!(IntQueue::from("").is_end());
}

struct Counted<'x> {
    x: &'x mut i32,
}

impl<'a> Drop for Counted<'a> {
    fn drop(&mut self) {
        *self.x += 1;
    }
}

struct Shared {
    x: std::rc::Rc<std::cell::Cell<i32>>,
}

impl Drop for Shared {
    fn drop(&mut self) {
        self.x.set(self.x.get() + 1);
    }
}

#[test]
fn test_drop1() {
    let mut x = 0;
    {
        let arr = Sequence::singleton(Counted { x: &mut x });
        assert_eq!(arr.len(), 1);
    }
    assert_eq!(x, 1);
}

#[test]
fn test_drop2() {
    let x = std::rc::Rc::new(std::cell::Cell::new(0));
    {
        let vec = vec![Shared { x: x.clone() }, Shared { x: x.clone() }];
        let arr = Sequence::from_iter(vec);
        for (i, _e) in arr.into_iter().into_iter().enumerate() {
            assert_eq!(x.get(), i as i32);
        }
    }
    assert_eq!(x.get(), 2);
}
