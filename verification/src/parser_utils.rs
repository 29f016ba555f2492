use crate::compilation_error::CompErr;
use crate::g::{chain_graph, literal_symbols, one_node_graph, range_edges, GView, G};
use crate::int_seq::{decrement, symbols_of, IntSeq, A, REFLECT};
use crate::p::{multiply_view, neutral_view, PView, P};
use crate::ranged_serializers::{unescape_a, unescaped};
use crate::regular_operations::{left_act_edges, right_act_finals};
use crate::text::{char_from_u32, decimal, push_decimal, push_str, string_from_chars};
use crate::v::V;
use vstd::prelude::*;
use vstd::utf8::is_scalar;

verus! {

/// The graph `g` with the weight `w` in front: it is added to the weight of
/// every incoming edge and of the epsilon.
pub fn pre_w(w: (i32, G)) -> (r: G)
    ensures
        w.0 == 0 ==> r@ == w.1@,
        w.0 != 0 ==> r@ == (GView {
            incoming: left_act_edges(PView { weight: w.0, output: Seq::empty() }, w.1@.incoming),
            epsilon: match w.1@.epsilon {
                Some(eps) => Some(
                    multiply_view(PView { weight: w.0, output: Seq::empty() }, eps),
                ),
                None => None,
            },
            ..w.1@
        }),
        w.1@.wf() ==> r@.wf(),
{
    let (weight, g) = w;
    if weight == 0 {
        g
    } else {
        P::new(weight, IntSeq::epsilon()).left_action_on_graph(g)
    }
}

/// The graph `g` with the weight `w` behind: it is added to the weight of
/// every final partial edge and of the epsilon.
pub fn post_w(w: (G, i32)) -> (r: G)
    ensures
        w.1 == 0 ==> r@ == w.0@,
        w.1 != 0 ==> r@ == (GView {
            outgoing: right_act_finals(w.0@.outgoing, PView { weight: w.1, output: Seq::empty() }),
            epsilon: match w.0@.epsilon {
                Some(eps) => Some(
                    multiply_view(eps, PView { weight: w.1, output: Seq::empty() }),
                ),
                None => None,
            },
            ..w.0@
        }),
        w.0@.wf() ==> r@.wf(),
{
    let (g, weight) = w;
    if weight == 0 {
        g
    } else {
        g.right_action_on_graph(&P::new(weight, IntSeq::epsilon()))
    }
}

/// The value of a decimal digit.
pub open spec fn digit_value(c: A) -> Option<nat> {
    if 0x30 <= c <= 0x39 {
        Some((c - 0x30) as nat)
    } else {
        None
    }
}

/// The number that a string of decimal digits stands for.
pub open spec fn digits_value(s: Seq<A>) -> Option<nat>
    decreases s.len(),
{
    if s.len() == 0 {
        Some(0)
    } else {
        match (digits_value(s.drop_last()), digit_value(s.last())) {
            (Some(v), Some(d)) => Some(v * 10 + d),
            _ => None,
        }
    }
}

/// The number below 2^32 that the text stands for: decimal digits, at least
/// one, with or without a plus sign in front.
pub open spec fn parsed_u32(s: Seq<A>) -> Option<u32> {
    let body = if s.len() > 0 && s[0] == 0x2B {
        s.subrange(1, s.len() as int)
    } else {
        s
    };
    if body.len() == 0 {
        None
    } else {
        match digits_value(body) {
            Some(v) => if v <= u32::MAX {
                Some(v as u32)
            } else {
                None
            },
            None => None,
        }
    }
}

/// A string of digits stands for at least as much as each of its prefixes, and
/// a string with a prefix that stands for nothing stands for nothing.
pub proof fn lemma_digits_prefix(s: Seq<A>, n: int)
    requires
        0 <= n <= s.len(),
    ensures
        digits_value(s.subrange(0, n)).is_none() ==> digits_value(s).is_none(),
        digits_value(s).is_some() ==> digits_value(s.subrange(0, n)).unwrap() <= digits_value(
            s,
        ).unwrap(),
    decreases s.len() - n,
{
    if n < s.len() {
        assert(s.subrange(0, n + 1).drop_last() =~= s.subrange(0, n));
        lemma_digits_prefix(s, n + 1);
    } else {
        assert(s.subrange(0, n) =~= s);
    }
}

/// Reads a number below 2^32; see `parsed_u32`.
pub fn parse_u32(s: &[A]) -> (r: Option<u32>)
    ensures
        r == parsed_u32(s@),
{
    let start: usize = if s.len() > 0 && s[0] == 0x2B {
        1
    } else {
        0
    };
    if start == s.len() {
        return None;
    }
    let ghost body = s@.subrange(start as int, s@.len() as int);
    proof {
        if start == 0 {
            assert(body =~= s@);
        }
    }
    let mut value: u64 = 0;
    let mut i: usize = start;
    assert(body.subrange(0, 0) =~= Seq::empty());
    while i < s.len()
        invariant
            start <= i <= s.len(),
            body == s@.subrange(start as int, s@.len() as int),
            parsed_u32(s@) == match digits_value(body) {
                Some(v) => if v <= u32::MAX {
                    Some(v as u32)
                } else {
                    None
                },
                None => None,
            },
            value <= u32::MAX,
            digits_value(body.subrange(0, i - start)) == Some(value as nat),
        decreases s.len() - i,
    {
        let c = s[i];
        proof {
            assert(body.subrange(0, i + 1 - start).drop_last() =~= body.subrange(0, i - start));
            assert(body.subrange(0, i + 1 - start).last() == c);
            lemma_digits_prefix(body, i + 1 - start);
        }
        if c < 0x30 || c > 0x39 {
            return None;
        }
        value = value * 10 + (c - 0x30) as u64;
        if value > u32::MAX as u64 {
            return None;
        }
        i = i + 1;
    }
    assert(body.subrange(0, i - start) =~= body);
    Some(value as u32)
}

/// The text of a message: `before`, the characters `middle`, and `after`.
pub fn message(before: &str, middle: &Vec<char>, after: &str) -> (r: String)
    ensures
        r@ == before@ + middle@ + after@,
{
    let mut out: Vec<char> = Vec::new();
    push_str(before, &mut out);
    let mut i: usize = 0;
    let ghost start = out@;
    while i < middle.len()
        invariant
            i <= middle.len(),
            out@ == start + middle@.subrange(0, i as int),
        decreases middle.len() - i,
    {
        out.push(middle[i]);
        assert(out@ =~= start + middle@.subrange(0, i + 1));
        i = i + 1;
    }
    assert(middle@.subrange(0, i as int) =~= middle@);
    push_str(after, &mut out);
    assert(out@ =~= before@ + middle@ + after@);
    string_from_chars(out.as_slice())
}

/// The characters of a string.
pub fn chars_of(s: &str) -> (r: Vec<char>)
    ensures
        r@ == s@,
{
    let mut out: Vec<char> = Vec::new();
    push_str(s, &mut out);
    assert(out@ =~= s@);
    out
}

/// The characters that the symbols stand for.
pub open spec fn chars_of_symbols(s: Seq<A>) -> Seq<char> {
    s.map_values(|c: A| c as char)
}

/// The Unicode scalar value whose number the text gives.
pub open spec fn parsed_scalar(s: Seq<A>) -> Option<A> {
    match parsed_u32(s) {
        Some(n) => if is_scalar(n) {
            Some(n)
        } else {
            None
        },
        None => None,
    }
}

/// What is said of a text that gives no Unicode scalar value.
pub open spec fn bad_number_message(word: Seq<A>) -> Seq<char> {
    "Integer value "@ + chars_of_symbols(word) + " is not a valid unicode"@
}

/// The characters of the symbols.
pub fn symbols_to_chars(word: &[A]) -> (r: Vec<char>)
    requires
        forall|i: int| 0 <= i < word@.len() ==> is_scalar(#[trigger] word@[i]),
    ensures
        r@ == chars_of_symbols(word@),
{
    let mut out: Vec<char> = Vec::new();
    let mut i: usize = 0;
    while i < word.len()
        invariant
            i <= word.len(),
            forall|i: int| 0 <= i < word@.len() ==> is_scalar(#[trigger] word@[i]),
            out@ == chars_of_symbols(word@).subrange(0, i as int),
        decreases word.len() - i,
    {
        let c = char_from_u32(word[i]).unwrap();
        proof {
            vstd::utf8::char_u32_cast(c, word@[i as int]);
            assert(out@.push(c) =~= chars_of_symbols(word@).subrange(0, i + 1));
        }
        out.push(c);
        i = i + 1;
    }
    assert(chars_of_symbols(word@).subrange(0, i as int) =~= chars_of_symbols(word@));
    out
}

/// Reads the number of a Unicode scalar value from a word.
pub fn parse_scalar(pos: V, word: &[A]) -> (r: Result<A, CompErr>)
    requires
        forall|i: int| 0 <= i < word@.len() ==> is_scalar(#[trigger] word@[i]),
    ensures
        match parsed_scalar(word@) {
            Some(n) => r == Ok::<A, CompErr>(n),
            None => r matches Err(CompErr::Parse(p, m)) && p == pos && m@ == bad_number_message(
                word@,
            ),
        },
{
    match parse_u32(word) {
        Some(n) => {
            if char_from_u32(n).is_some() {
                return Ok(n);
            }
        },
        None => {},
    }
    let text = symbols_to_chars(word);
    Err(CompErr::Parse(pos, message("Integer value ", &text, " is not a valid unicode")))
}

/// The symbols of a string, which are Unicode scalar values.
pub fn symbols_of_str(s: &str) -> (r: Vec<A>)
    ensures
        r@ == symbols_of(s@),
        forall|i: int| 0 <= i < r@.len() ==> is_scalar(#[trigger] r@[i]),
        chars_of_symbols(r@) == s@,
{
    let r = IntSeq::from(s).to_symbols();
    proof {
        assert forall|i: int| 0 <= i < r@.len() implies is_scalar(#[trigger] r@[i]) by {
            vstd::utf8::char_is_scalar(s@[i]);
        }
        assert forall|i: int| 0 <= i < r@.len() implies chars_of_symbols(r@)[i] == s@[i] by {
            vstd::utf8::char_u32_cast(s@[i], r@[i]);
        }
        assert(chars_of_symbols(r@) =~= s@);
    }
    r
}

/// Reads the number of a Unicode scalar value.
pub fn parse_a(pos: V, original: &str) -> (r: Result<(V, A), CompErr>)
    ensures
        match parsed_scalar(symbols_of(original@)) {
            Some(n) => r == Ok::<(V, A), CompErr>((pos, n)),
            None => r matches Err(CompErr::Parse(p, m)) && p == pos && m@ == "Integer value "@
                + original@ + " is not a valid unicode"@,
        },
{
    let symbols = symbols_of_str(original);
    match parse_scalar(pos, symbols.as_slice()) {
        Ok(n) => Ok((pos, n)),
        Err(e) => Err(e),
    }
}

/// The character with the given scalar value.
pub fn parse_char(pos: V, original: u32) -> (r: Result<(V, char), CompErr>)
    ensures
        is_scalar(original) ==> r.is_ok() && r.unwrap().0 == pos && r.unwrap().1 as u32
            == original,
        !is_scalar(original) ==> (r matches Err(CompErr::Parse(p, m)) && p == pos && m@
            == "Codepoint "@ + decimal(original as int) + " is not a valid utf-8 character"@),
{
    match char_from_u32(original) {
        Some(c) => Ok((pos, c)),
        None => {
            let mut digits: Vec<char> = Vec::new();
            push_decimal(original as i64, &mut digits);
            assert(digits@ =~= decimal(original as int));
            Err(
                CompErr::Parse(
                    pos,
                    message("Codepoint ", &digits, " is not a valid utf-8 character"),
                ),
            )
        },
    }
}

/// Whether the symbol is white space.
pub open spec fn is_space(c: A) -> bool {
    (0x09 <= c <= 0x0D) || c == 0x20 || c == 0x85 || c == 0xA0 || c == 0x1680 || (0x2000 <= c
        <= 0x200A) || c == 0x2028 || c == 0x2029 || c == 0x202F || c == 0x205F || c == 0x3000
}

/// The words that are complete after the symbols `s`, and the word that is
/// being read.
pub open spec fn words_state(s: Seq<A>) -> (Seq<Seq<A>>, Seq<A>)
    decreases s.len(),
{
    if s.len() == 0 {
        (Seq::empty(), Seq::empty())
    } else {
        let (done, current) = words_state(s.drop_last());
        let c = s.last();
        if is_space(c) {
            if current.len() > 0 {
                (done.push(current), Seq::empty())
            } else {
                (done, current)
            }
        } else {
            (done, current.push(c))
        }
    }
}

/// The words of a text: the longest runs of symbols that are not white space.
pub open spec fn words(s: Seq<A>) -> Seq<Seq<A>> {
    let (done, current) = words_state(s);
    if current.len() > 0 {
        done.push(current)
    } else {
        done
    }
}

/// What a list of words is.
pub open spec fn words_view(w: Seq<Vec<A>>) -> Seq<Seq<A>> {
    w.map_values(|x: Vec<A>| x@)
}

/// The words of a text; see `words`.
pub fn split_whitespace(s: &[A]) -> (r: Vec<Vec<A>>)
    ensures
        words_view(r@) == words(s@),
        forall|i: int| 0 <= i < r@.len() ==> (#[trigger] r@[i])@.len() > 0,
{
    let mut done: Vec<Vec<A>> = Vec::new();
    let mut current: Vec<A> = Vec::new();
    let mut i: usize = 0;
    proof {
        assert(s@.subrange(0, 0) =~= Seq::empty());
        assert(words_view(done@) =~= Seq::empty());
    }
    while i < s.len()
        invariant
            i <= s.len(),
            words_state(s@.subrange(0, i as int)) == (words_view(done@), current@),
            forall|k: int| 0 <= k < done@.len() ==> (#[trigger] done@[k])@.len() > 0,
        decreases s.len() - i,
    {
        let c = s[i];
        proof {
            assert(s@.subrange(0, i + 1).drop_last() =~= s@.subrange(0, i as int));
            assert(s@.subrange(0, i + 1).last() == c);
        }
        let space = (0x09 <= c && c <= 0x0D) || c == 0x20 || c == 0x85 || c == 0xA0 || c == 0x1680
            || (0x2000 <= c && c <= 0x200A) || c == 0x2028 || c == 0x2029 || c == 0x202F || c
            == 0x205F || c == 0x3000;
        if space {
            if current.len() > 0 {
                let ghost word = current@;
                let ghost before = words_view(done@);
                let mut taken: Vec<A> = Vec::new();
                core::mem::swap(&mut taken, &mut current);
                done.push(taken);
                assert(words_view(done@) =~= before.push(word));
            }
        } else {
            current.push(c);
        }
        i = i + 1;
    }
    assert(s@.subrange(0, i as int) =~= s@);
    if current.len() > 0 {
        let ghost word = current@;
        let ghost before = words_view(done@);
        done.push(current);
        assert(words_view(done@) =~= before.push(word));
    }
    done
}

/// The symbols that a literal stands for, one at a time.
pub struct StringLiteralIter {
    symbols: Vec<A>,
    position: usize,
}

impl StringLiteralIter {
    /// The symbols of the literal that are still to come.
    pub closed spec fn remaining(&self) -> Seq<A> {
        literal_symbols(
            self.symbols@.subrange(
                if self.position <= self.symbols@.len() {
                    self.position as int
                } else {
                    self.symbols@.len() as int
                },
                self.symbols@.len() as int,
            ),
        )
    }

    /// The next symbol of the literal, if there is one.
    pub fn next(&mut self) -> (r: Option<A>)
        ensures
            old(self).remaining().len() == 0 ==> r.is_none() && final(self).remaining().len() == 0,
            old(self).remaining().len() > 0 ==> r == Some(old(self).remaining()[0])
                && final(self).remaining() == old(self).remaining().subrange(
                1,
                old(self).remaining().len() as int,
            ),
    {
        let n = self.symbols.len();
        if self.position >= n {
            self.position = n;
            return None;
        }
        let ghost here = self.symbols@.subrange(self.position as int, n as int);
        let c = self.symbols[self.position];
        assert(here[0] == c);
        if c == 0x5C {
            if self.position + 1 < n {
                let d = unescape_a(self.symbols[self.position + 1]);
                assert(here[1] == self.symbols@[self.position + 1]);
                assert(here.subrange(2, here.len() as int) =~= self.symbols@.subrange(
                    self.position + 2,
                    n as int,
                ));
                self.position = self.position + 2;
                assert(old(self).remaining().subrange(1, old(self).remaining().len() as int)
                    =~= self.remaining());
                Some(d)
            } else {
                self.position = n;
                None
            }
        } else {
            assert(here.subrange(1, here.len() as int) =~= self.symbols@.subrange(
                self.position + 1,
                n as int,
            ));
            self.position = self.position + 1;
            assert(old(self).remaining().subrange(1, old(self).remaining().len() as int)
                =~= self.remaining());
            Some(c)
        }
    }

    /// All symbols that are still to come.
    pub fn collect(self) -> (r: Vec<A>)
        ensures
            r@ == self.remaining(),
    {
        let mut it = self;
        let mut out: Vec<A> = Vec::new();
        loop
            invariant
                out@ + it.remaining() == self.remaining(),
            ensures
                out@ == self.remaining(),
            decreases it.remaining().len(),
        {
            let ghost before = it.remaining();
            match it.next() {
                Some(c) => {
                    assert(out@.push(c) + it.remaining() =~= out@ + before);
                    out.push(c);
                },
                None => {
                    assert(out@ + before =~= out@);
                    break ;
                },
            }
        }
        out
    }
}

/// The symbols that the literal stands for: a backslash and the symbol behind
/// it stand for one symbol, and a backslash at the very end for nothing.
pub fn parse_literal(s: &str) -> (r: StringLiteralIter)
    ensures
        r.remaining() == literal_symbols(symbols_of(s@)),
{
    let symbols = IntSeq::from(s).to_symbols();
    let r = StringLiteralIter { symbols, position: 0 };
    assert(r.symbols@.subrange(0, r.symbols@.len() as int) =~= r.symbols@);
    r
}


/// Whether every symbol of every word is a Unicode scalar value.
pub open spec fn words_scalar(ws: Seq<Seq<A>>) -> bool {
    forall|k: int, i: int| 0 <= k < ws.len() && 0 <= i < ws[k].len() ==> is_scalar(#[trigger] ws[k][i])
}

/// Whether every symbol is a Unicode scalar value.
pub open spec fn word_scalar(w: Seq<A>) -> bool {
    forall|i: int| 0 <= i < w.len() ==> is_scalar(#[trigger] w[i])
}

/// The words of a text of scalars hold scalars.
pub proof fn lemma_words_scalars(s: Seq<A>)
    requires
        word_scalar(s),
    ensures
        words_scalar(words_state(s).0),
        word_scalar(words_state(s).1),
        words_scalar(words(s)),
    decreases s.len(),
{
    if s.len() > 0 {
        let front = s.drop_last();
        assert forall|i: int| 0 <= i < front.len() implies is_scalar(#[trigger] front[i]) by {
            assert(front[i] == s[i]);
        }
        lemma_words_scalars(front);
        let (done, current) = words_state(front);
        let c = s.last();
        assert(is_scalar(s[s.len() - 1]));
        if is_space(c) {
            if current.len() > 0 {
                lemma_push_word(done, current);
            }
        } else {
            let longer = current.push(c);
            assert forall|i: int| 0 <= i < longer.len() implies is_scalar(#[trigger] longer[i]) by {
                if i < current.len() {
                    assert(longer[i] == current[i]);
                }
            }
        }
    }
    let (done, current) = words_state(s);
    if current.len() > 0 {
        lemma_push_word(done, current);
    }
}

/// A list of words of scalars with one more such word is one.
pub proof fn lemma_push_word(ws: Seq<Seq<A>>, w: Seq<A>)
    requires
        words_scalar(ws),
        word_scalar(w),
    ensures
        words_scalar(ws.push(w)),
{
    let longer = ws.push(w);
    assert forall|k: int, i: int| 0 <= k < longer.len() && 0 <= i < longer[k].len() implies is_scalar(
        #[trigger] longer[k][i],
    ) by {
        if k < ws.len() {
            assert(longer[k] == ws[k]);
            assert(is_scalar(ws[k][i]));
        } else {
            assert(longer[k] == w);
            assert(is_scalar(w[i]));
        }
    }
}

/// The scalar values whose numbers the words give, or the first word that
/// gives none.
pub open spec fn codepoints_of_words(words: Seq<Seq<A>>) -> Result<Seq<A>, Seq<A>>
    decreases words.len(),
{
    if words.len() == 0 {
        Ok(Seq::empty())
    } else {
        match codepoints_of_words(words.drop_last()) {
            Err(w) => Err(w),
            Ok(v) => match parsed_scalar(words.last()) {
                Some(n) => Ok(v.push(n)),
                None => Err(words.last()),
            },
        }
    }
}

/// Reads a list of numbers of Unicode scalar values, set apart by white space.
pub fn parse_codepoints(s: &str, pos: V) -> (r: Result<String, CompErr>)
    ensures
        match codepoints_of_words(words(symbols_of(s@))) {
            Ok(v) => r.is_ok() && symbols_of(r.unwrap()@) == v,
            Err(w) => r matches Err(CompErr::Parse(p, m)) && p == pos && m@ == bad_number_message(
                w,
            ),
        },
{
    let symbols = symbols_of_str(s);
    let tokens = split_whitespace(symbols.as_slice());
    let ghost ws = words(symbols@);
    proof {
        lemma_words_scalars(symbols@);
    }
    let mut out: Vec<char> = Vec::new();
    let mut i: usize = 0;
    assert(ws.subrange(0, 0) =~= Seq::empty());
    assert(symbols_of(out@) =~= Seq::empty());
    while i < tokens.len()
        invariant
            i <= tokens.len(),
            ws == words_view(tokens@),
            ws == words(symbols_of(s@)),
            words_scalar(ws),
            codepoints_of_words(ws.subrange(0, i as int)) == Ok::<Seq<A>, Seq<A>>(
                symbols_of(out@),
            ),
        decreases tokens.len() - i,
    {
        proof {
            assert(ws.subrange(0, i + 1).drop_last() =~= ws.subrange(0, i as int));
            assert(ws.subrange(0, i + 1).last() == tokens@[i as int]@);
            assert forall|x: int| 0 <= x < tokens@[i as int]@.len() implies is_scalar(
                #[trigger] tokens@[i as int]@[x],
            ) by {
                assert(ws[i as int][x] == tokens@[i as int]@[x]);
            }
        }
        match parse_scalar(pos, tokens[i].as_slice()) {
            Ok(n) => {
                let c = char_from_u32(n).unwrap();
                proof {
                    assert(symbols_of(out@.push(c)) =~= symbols_of(out@).push(n));
                }
                out.push(c);
            },
            Err(e) => {
                proof {
                    assert(codepoints_of_words(ws.subrange(0, i + 1)) == Err::<Seq<A>, Seq<A>>(
                        ws[i as int],
                    ));
                    lemma_codepoints_prefix(ws, i + 1);
                }
                return Err(e);
            },
        }
        i = i + 1;
    }
    assert(ws.subrange(0, i as int) =~= ws);
    Ok(string_from_chars(out.as_slice()))
}

/// The first word that gives no number is the same for a list and for a prefix
/// that holds it.
pub proof fn lemma_codepoints_prefix(ws: Seq<Seq<A>>, n: int)
    requires
        0 <= n <= ws.len(),
        codepoints_of_words(ws.subrange(0, n)).is_err(),
    ensures
        codepoints_of_words(ws) == codepoints_of_words(ws.subrange(0, n)),
    decreases ws.len() - n,
{
    if n < ws.len() {
        assert(ws.subrange(0, n + 1).drop_last() =~= ws.subrange(0, n));
        lemma_codepoints_prefix(ws, n + 1);
    } else {
        assert(ws.subrange(0, n) =~= ws);
    }
}

/// Why a text gives no interval of symbols.
pub enum RangeFault {
    /// A word that should give the number of a Unicode scalar value gives none.
    Number(Seq<A>),
    /// The interval begins with the reflection marker.
    Null,
    /// The interval ends before it begins.
    Empty,
    /// The text breaks off in the middle of an interval.
    Malformed,
}

/// The interval from `from` to `to`, both included, as a pair of an exclusive
/// and an inclusive bound.
pub open spec fn interval(from: A, to: A) -> Result<(A, A), RangeFault> {
    if from == REFLECT {
        Err(RangeFault::Null)
    } else if from > to {
        Err(RangeFault::Empty)
    } else {
        Ok(((from - 1) as A, to))
    }
}

/// The place of the first hyphen among the first `n` symbols, or `n` if there
/// is none.
pub open spec fn first_hyphen(w: Seq<A>, n: int) -> int
    decreases n,
{
    if n <= 0 {
        0
    } else {
        let before = first_hyphen(w, n - 1);
        if before < n - 1 {
            before
        } else if w[n - 1] == 0x2D {
            n - 1
        } else {
            n
        }
    }
}

/// The interval that a word gives: one number, or two numbers with a hyphen
/// between them.
pub open spec fn interval_of_word(w: Seq<A>) -> Result<(A, A), RangeFault> {
    let h = first_hyphen(w, w.len() as int);
    if h < w.len() {
        let left = w.subrange(0, h);
        let right = w.subrange(h + 1, w.len() as int);
        match parsed_scalar(left) {
            None => Err(RangeFault::Number(left)),
            Some(from) => match parsed_scalar(right) {
                None => Err(RangeFault::Number(right)),
                Some(to) => interval(from, to),
            },
        }
    } else {
        match parsed_scalar(w) {
            None => Err(RangeFault::Number(w)),
            Some(from) => interval(from, from),
        }
    }
}

/// The intervals that the words give, or why the first word that gives none
/// does not.
pub open spec fn intervals_of_words(words: Seq<Seq<A>>) -> Result<Seq<(A, A)>, RangeFault>
    decreases words.len(),
{
    if words.len() == 0 {
        Ok(Seq::empty())
    } else {
        match intervals_of_words(words.drop_last()) {
            Err(e) => Err(e),
            Ok(v) => match interval_of_word(words.last()) {
                Ok(r) => Ok(v.push(r)),
                Err(e) => Err(e),
            },
        }
    }
}

/// What is said of a text that gives no intervals.
pub open spec fn fault_message(fault: RangeFault) -> Seq<char> {
    match fault {
        RangeFault::Number(w) => bad_number_message(w),
        RangeFault::Null => "Null character not allowed on input"@,
        RangeFault::Empty => "Range ends before it begins"@,
        RangeFault::Malformed => "Range breaks off"@,
    }
}

/// The interval from `from` to `to`; see `interval`.
pub fn make_interval(pos: V, from: A, to: A) -> (r: Result<(A, A), CompErr>)
    ensures
        match interval(from, to) {
            Ok(i) => r == Ok::<(A, A), CompErr>(i) && i.0 < i.1,
            Err(e) => r matches Err(CompErr::Parse(p, m)) && p == pos && m@ == fault_message(e),
        },
{
    if from == REFLECT {
        Err(CompErr::Parse(pos, "Null character not allowed on input".to_owned()))
    } else if from > to {
        Err(CompErr::Parse(pos, "Range ends before it begins".to_owned()))
    } else {
        Ok((decrement(from), to))
    }
}

/// Reads the interval that a word gives; see `interval_of_word`.
pub fn parse_interval(pos: V, w: &[A]) -> (r: Result<(A, A), CompErr>)
    requires
        forall|i: int| 0 <= i < w@.len() ==> is_scalar(#[trigger] w@[i]),
    ensures
        match interval_of_word(w@) {
            Ok(i) => r == Ok::<(A, A), CompErr>(i) && i.0 < i.1,
            Err(e) => r matches Err(CompErr::Parse(p, m)) && p == pos && m@ == fault_message(e),
        },
{
    let n = w.len();
    let mut h: usize = 0;
    while h < n && w[h] != 0x2D
        invariant
            h <= n,
            n == w@.len(),
            first_hyphen(w@, h as int) == h,
        decreases n - h,
    {
        h = h + 1;
    }
    proof {
        lemma_first_hyphen(w@, h as int, n as int);
    }
    if h < n {
        let left = vstd::slice::slice_subrange(w, 0, h);
        let right = vstd::slice::slice_subrange(w, h + 1, n);
        let from = match parse_scalar(pos, left) {
            Ok(from) => from,
            Err(e) => {
                return Err(e);
            },
        };
        let to = match parse_scalar(pos, right) {
            Ok(to) => to,
            Err(e) => {
                return Err(e);
            },
        };
        make_interval(pos, from, to)
    } else {
        let from = match parse_scalar(pos, w) {
            Ok(from) => from,
            Err(e) => {
                return Err(e);
            },
        };
        make_interval(pos, from, from)
    }
}

/// A hyphen that was found first stays the first.
pub proof fn lemma_first_hyphen(w: Seq<A>, h: int, n: int)
    requires
        0 <= h <= n <= w.len(),
        first_hyphen(w, h) == h,
        h < w.len() ==> w[h] == 0x2D,
        h == w.len() || n > h,
    ensures
        first_hyphen(w, n) == h,
    decreases n - h,
{
    if n > h {
        if n - 1 > h {
            lemma_first_hyphen(w, h, n - 1);
        }
    }
}

/// Reads a list of intervals of scalar values, set apart by white space, each
/// one number or two numbers with a hyphen between them, and makes the graph
/// that reads one symbol of any of them and gives no output.
pub fn parse_codepoint_range(s: &str, pos: V) -> (r: Result<G, CompErr>)
    ensures
        match intervals_of_words(words(symbols_of(s@))) {
            Ok(v) => r.is_ok() && r.unwrap()@ == one_node_graph(
                range_edges(v, 0),
                neutral_view(),
                pos,
            ) && r.unwrap()@.wf(),
            Err(e) => r matches Err(CompErr::Parse(p, m)) && p == pos && m@ == fault_message(e),
        },
{
    let symbols = symbols_of_str(s);
    let tokens = split_whitespace(symbols.as_slice());
    let ghost ws = words(symbols@);
    proof {
        lemma_words_scalars(symbols@);
    }
    let mut ranges: Vec<(A, A)> = Vec::new();
    let mut i: usize = 0;
    assert(ws.subrange(0, 0) =~= Seq::empty());
    while i < tokens.len()
        invariant
            i <= tokens.len(),
            ws == words_view(tokens@),
            ws == words(symbols_of(s@)),
            words_scalar(ws),
            intervals_of_words(ws.subrange(0, i as int)) == Ok::<Seq<(A, A)>, RangeFault>(ranges@),
            forall|k: int| 0 <= k < ranges@.len() ==> (#[trigger] ranges@[k]).0 < ranges@[k].1,
        decreases tokens.len() - i,
    {
        proof {
            assert(ws.subrange(0, i + 1).drop_last() =~= ws.subrange(0, i as int));
            assert(ws.subrange(0, i + 1).last() == tokens@[i as int]@);
            assert forall|x: int| 0 <= x < tokens@[i as int]@.len() implies is_scalar(
                #[trigger] tokens@[i as int]@[x],
            ) by {
                assert(ws[i as int][x] == tokens@[i as int]@[x]);
            }
        }
        match parse_interval(pos, tokens[i].as_slice()) {
            Ok(range) => {
                ranges.push(range);
            },
            Err(e) => {
                proof {
                    assert(intervals_of_words(ws.subrange(0, i + 1)).is_err());
                    lemma_intervals_prefix(ws, i + 1);
                }
                return Err(e);
            },
        }
        i = i + 1;
    }
    assert(ws.subrange(0, i as int) =~= ws);
    Ok(G::new_from_ranges(ranges.as_slice(), pos))
}

/// The fault of a list of words is the fault of the first prefix that has one.
pub proof fn lemma_intervals_prefix(ws: Seq<Seq<A>>, n: int)
    requires
        0 <= n <= ws.len(),
        intervals_of_words(ws.subrange(0, n)).is_err(),
    ensures
        intervals_of_words(ws) == intervals_of_words(ws.subrange(0, n)),
    decreases ws.len() - n,
{
    if n < ws.len() {
        assert(ws.subrange(0, n + 1).drop_last() =~= ws.subrange(0, n));
        lemma_intervals_prefix(ws, n + 1);
    } else {
        assert(ws.subrange(0, n) =~= ws);
    }
}

/// The symbol that stands at place `i` of a bracket expression, with the place
/// behind it: a backslash and the symbol behind it stand for one symbol.
pub open spec fn bracket_symbol(s: Seq<A>, i: int) -> Option<(A, int)> {
    if i < 0 || i >= s.len() {
        None
    } else if s[i] == 0x5C {
        if i + 1 < s.len() {
            Some((unescaped(s[i + 1]), i + 2))
        } else {
            None
        }
    } else {
        Some((s[i], i + 1))
    }
}

/// The intervals that a bracket expression gives from place `i` on. The last
/// symbol of the expression closes the bracket and is not read. Each interval
/// is one symbol, or two symbols with a hyphen between them.
pub open spec fn bracket_intervals(s: Seq<A>, i: int) -> Result<Seq<(A, A)>, RangeFault>
    decreases s.len() - i,
{
    if i < 0 || i >= s.len() - 1 {
        Ok(Seq::empty())
    } else {
        match bracket_symbol(s, i) {
            None => Err(RangeFault::Malformed),
            Some((from, j)) => {
                if j < s.len() && s[j] == 0x2D {
                    match bracket_symbol(s, j + 1) {
                        None => Err(RangeFault::Malformed),
                        Some((to, k)) => match interval(from, to) {
                            Err(e) => Err(e),
                            Ok(r) => match bracket_intervals(s, k) {
                                Err(e) => Err(e),
                                Ok(rest) => Ok(seq![r] + rest),
                            },
                        },
                    }
                } else {
                    match interval(from, from) {
                        Err(e) => Err(e),
                        Ok(r) => match bracket_intervals(s, j) {
                            Err(e) => Err(e),
                            Ok(rest) => Ok(seq![r] + rest),
                        },
                    }
                }
            },
        }
    }
}

/// Reads the symbol at place `i` of a bracket expression; see `bracket_symbol`.
pub fn read_bracket_symbol(pos: V, s: &[A], i: usize) -> (r: Result<(A, usize), CompErr>)
    ensures
        match bracket_symbol(s@, i as int) {
            Some((c, j)) => r == Ok::<(A, usize), CompErr>((c, j as usize)) && i < j <= s@.len(),
            None => r matches Err(CompErr::Parse(p, m)) && p == pos && m@ == fault_message(
                RangeFault::Malformed,
            ),
        },
{
    if i >= s.len() {
        Err(CompErr::Parse(pos, "Range breaks off".to_owned()))
    } else if s[i] == 0x5C {
        if i + 1 < s.len() {
            Ok((unescape_a(s[i + 1]), i + 2))
        } else {
            Err(CompErr::Parse(pos, "Range breaks off".to_owned()))
        }
    } else {
        Ok((s[i], i + 1))
    }
}

/// Reads the inside of a bracket expression up to and with the closing
/// bracket, and makes the graph that reads one symbol of any of its intervals
/// and gives no output.
pub fn parse_range(s: &str, pos: V) -> (r: Result<G, CompErr>)
    ensures
        match bracket_intervals(symbols_of(s@), 0) {
            Ok(v) => r.is_ok() && r.unwrap()@ == one_node_graph(
                range_edges(v, 0),
                neutral_view(),
                pos,
            ) && r.unwrap()@.wf(),
            Err(e) => r matches Err(CompErr::Parse(p, m)) && p == pos && m@ == fault_message(e),
        },
{
    let codepoints = symbols_of_str(s);
    let n = codepoints.len();
    let ghost cs = codepoints@;
    let mut ranges: Vec<(A, A)> = Vec::new();
    let mut i: usize = 0;
    assert(ranges@ + Seq::<(A, A)>::empty() =~= ranges@);
    while n - i > 1
        invariant
            i <= n,
            n == cs.len(),
            cs == codepoints@,
            cs == symbols_of(s@),
            forall|k: int| 0 <= k < ranges@.len() ==> (#[trigger] ranges@[k]).0 < ranges@[k].1,
            bracket_intervals(cs, 0) == match bracket_intervals(cs, i as int) {
                Ok(rest) => Ok::<Seq<(A, A)>, RangeFault>(ranges@ + rest),
                Err(e) => Err(e),
            },
        decreases n - i,
    {
        let (from, j) = match read_bracket_symbol(pos, codepoints.as_slice(), i) {
            Ok(x) => x,
            Err(e) => {
                return Err(e);
            },
        };
        let (to, k) = if j < n && codepoints[j] == 0x2D {
            match read_bracket_symbol(pos, codepoints.as_slice(), j + 1) {
                Ok(x) => x,
                Err(e) => {
                    return Err(e);
                },
            }
        } else {
            (from, j)
        };
        match make_interval(pos, from, to) {
            Ok(range) => {
                proof {
                    match bracket_intervals(cs, k as int) {
                        Ok(rest) => {
                            assert(ranges@.push(range) + rest =~= ranges@ + (seq![range] + rest));
                        },
                        Err(e) => {},
                    }
                }
                ranges.push(range);
            },
            Err(e) => {
                return Err(e);
            },
        }
        i = k;
    }
    assert(ranges@ + Seq::<(A, A)>::empty() =~= ranges@);
    Ok(G::new_from_ranges(ranges.as_slice(), pos))
}


/// The symbols of a literal of scalars are scalars.
pub proof fn lemma_literal_scalars(s: Seq<A>)
    requires
        word_scalar(s),
    ensures
        word_scalar(literal_symbols(s)),
    decreases s.len(),
{
    if s.len() == 0 {
    } else if s[0] == 0x5C {
        if s.len() >= 2 {
            let rest = s.subrange(2, s.len() as int);
            assert forall|i: int| 0 <= i < rest.len() implies is_scalar(#[trigger] rest[i]) by {
                assert(rest[i] == s[i + 2]);
            }
            lemma_literal_scalars(rest);
            assert(is_scalar(s[1]));
            let r = literal_symbols(s);
            assert forall|i: int| 0 <= i < r.len() implies is_scalar(#[trigger] r[i]) by {
                if i > 0 {
                    assert(r[i] == literal_symbols(rest)[i - 1]);
                }
            }
        }
    } else {
        let rest = s.subrange(1, s.len() as int);
        assert forall|i: int| 0 <= i < rest.len() implies is_scalar(#[trigger] rest[i]) by {
            assert(rest[i] == s[i + 1]);
        }
        lemma_literal_scalars(rest);
        assert(is_scalar(s[0]));
        let r = literal_symbols(s);
        assert forall|i: int| 0 <= i < r.len() implies is_scalar(#[trigger] r[i]) by {
            if i > 0 {
                assert(r[i] == literal_symbols(rest)[i - 1]);
            }
        }
    }
}

impl G {
    /// The graph that reads the symbols that the literal stands for and gives
    /// no output. The literal may not stand for the reflection marker.
    pub fn new_from_string_literal(s: &str, meta: V) -> (r: G)
        requires
            forall|i: int|
                0 <= i < literal_symbols(symbols_of(s@)).len() ==> #[trigger] literal_symbols(
                    symbols_of(s@),
                )[i] > REFLECT,
        ensures
            r@ == chain_graph(literal_symbols(symbols_of(s@)), false, meta),
            r@.wf(),
    {
        let symbols = parse_literal(s).collect();
        G::new_from_iter(symbols.as_slice(), false, meta)
    }

    /// The graph that reads the symbols that the literal stands for and gives
    /// them back. The literal may not stand for the reflection marker.
    pub fn new_from_reflected_string_literal(s: &str, meta: V) -> (r: G)
        requires
            forall|i: int|
                0 <= i < literal_symbols(symbols_of(s@)).len() ==> #[trigger] literal_symbols(
                    symbols_of(s@),
                )[i] > REFLECT,
        ensures
            r@ == chain_graph(literal_symbols(symbols_of(s@)), true, meta),
            r@.wf(),
    {
        let symbols = parse_literal(s).collect();
        proof {
            assert forall|i: int| 0 <= i < s@.len() implies is_scalar(
                #[trigger] symbols_of(s@)[i],
            ) by {
                vstd::utf8::char_is_scalar(s@[i]);
            }
            lemma_literal_scalars(symbols_of(s@));
        }
        G::new_from_iter(symbols.as_slice(), true, meta)
    }
}

} // verus!
