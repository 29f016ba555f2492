use crate::compilation_error::CompErr;
use crate::int_seq::{symbols_of, A};
use crate::p::W;
use crate::parser_utils::{chars_of_symbols, symbols_of_str, symbols_to_chars, word_scalar};
use crate::text::string_from_chars;
use crate::v::V;
use vstd::prelude::*;
use vstd::slice::slice_subrange;

verus! {

/// A word of the source language.
#[derive(Debug)]
pub enum Tok {
    /// A name.
    Id(String),
    /// What stands between two quotes, escapes as they were written.
    Literal(String),
    /// What stands behind a `[`, up to and with the `]` that closes it.
    Bracket(String),
    /// What stands between `<` and `>`, where no hyphen stands there.
    Codepoints(String),
    /// What stands between `<[` and `]>`, or between `<` and `>` with a
    /// hyphen.
    CodepointRange(String),
    /// A weight.
    Number(W),
    /// `=`
    Assign,
    /// `|`
    Bar,
    /// `||`
    Alternative,
    /// `;`
    Semicolon,
    /// `:`
    Colon,
    /// `*`
    Star,
    /// `+`
    Plus,
    /// `?`
    Question,
    /// `(`
    Open,
    /// `)`
    Close,
    /// `!!`
    Copy,
    /// `!(`
    Call,
    /// `@`
    At,
    /// `,`
    Comma,
    /// The sign of the empty set, for an input that has no output.
    Nothing,
    /// The word `nonfunc`.
    Nonfunc,
}

/// What a word of the source language is.
pub enum TokView {
    Id(Seq<char>),
    Literal(Seq<char>),
    Bracket(Seq<char>),
    Codepoints(Seq<char>),
    CodepointRange(Seq<char>),
    Number(W),
    Assign,
    Bar,
    Alternative,
    Semicolon,
    Colon,
    Star,
    Plus,
    Question,
    Open,
    Close,
    Copy,
    Call,
    At,
    Comma,
    Nothing,
    Nonfunc,
}

impl View for Tok {
    type V = TokView;

    open spec fn view(&self) -> TokView {
        match *self {
            Tok::Id(s) => TokView::Id(s@),
            Tok::Literal(s) => TokView::Literal(s@),
            Tok::Bracket(s) => TokView::Bracket(s@),
            Tok::Codepoints(s) => TokView::Codepoints(s@),
            Tok::CodepointRange(s) => TokView::CodepointRange(s@),
            Tok::Number(w) => TokView::Number(w),
            Tok::Assign => TokView::Assign,
            Tok::Bar => TokView::Bar,
            Tok::Alternative => TokView::Alternative,
            Tok::Semicolon => TokView::Semicolon,
            Tok::Colon => TokView::Colon,
            Tok::Star => TokView::Star,
            Tok::Plus => TokView::Plus,
            Tok::Question => TokView::Question,
            Tok::Open => TokView::Open,
            Tok::Close => TokView::Close,
            Tok::Copy => TokView::Copy,
            Tok::Call => TokView::Call,
            Tok::At => TokView::At,
            Tok::Comma => TokView::Comma,
            Tok::Nothing => TokView::Nothing,
            Tok::Nonfunc => TokView::Nonfunc,
        }
    }
}

/// A word of the source language with the place of its first symbol.
#[derive(Debug)]
pub struct Token {
    pub tok: Tok,
    pub offset: usize,
}

impl View for Token {
    type V = (TokView, usize);

    open spec fn view(&self) -> (TokView, usize) {
        (self.tok@, self.offset)
    }
}

/// What the tokens are.
pub open spec fn tokens_view(tokens: Seq<Token>) -> Seq<(TokView, usize)> {
    tokens.map_values(|t: Token| t@)
}

/// Whether the places of the tokens increase strictly and stay below `n`.
pub open spec fn in_order(tokens: Seq<Token>, n: nat) -> bool {
    &&& forall|i: int| 0 <= i < tokens.len() ==> (#[trigger] tokens[i]).offset < n
    &&& forall|i: int, j: int|
        0 <= i < j < tokens.len() ==> (#[trigger] tokens[i]).offset < (#[trigger] tokens[j]).offset
}

/// Whether the symbol is white space of the source language.
pub open spec fn blank(c: A) -> bool {
    c == 0x20 || (0x09 <= c <= 0x0D)
}

pub fn is_blank(c: A) -> (r: bool)
    ensures
        r == blank(c),
{
    c == 0x20 || (0x09 <= c && c <= 0x0D)
}

/// Whether a name can begin with the symbol: a Latin letter or an underscore.
pub open spec fn name_start(c: A) -> bool {
    (0x41 <= c <= 0x5A) || (0x61 <= c <= 0x7A) || c == 0x5F
}

/// Whether a name can go on with the symbol: a Latin letter, an underscore, a
/// digit or a full stop.
pub open spec fn name_part(c: A) -> bool {
    name_start(c) || (0x30 <= c <= 0x39) || c == 0x2E
}

pub fn is_name_start(c: A) -> (r: bool)
    ensures
        r == name_start(c),
{
    (0x41 <= c && c <= 0x5A) || (0x61 <= c && c <= 0x7A) || c == 0x5F
}

pub fn is_name_part(c: A) -> (r: bool)
    ensures
        r == name_part(c),
{
    is_name_start(c) || (0x30 <= c && c <= 0x39) || c == 0x2E
}

/// Whether the symbol is a decimal digit.
pub open spec fn digit(c: A) -> bool {
    0x30 <= c <= 0x39
}

pub fn is_digit(c: A) -> (r: bool)
    ensures
        r == digit(c),
{
    0x30 <= c && c <= 0x39
}

/// The place behind the symbols from `i` on that are of the given kind.
pub open spec fn run_end(s: Seq<A>, i: int, kind: spec_fn(A) -> bool) -> int
    decreases s.len() - i,
{
    if 0 <= i < s.len() && kind(s[i]) {
        run_end(s, i + 1, kind)
    } else {
        i
    }
}

/// A run ends at or behind the place where it begins, and within the text.
pub proof fn lemma_run_end(s: Seq<A>, i: int, kind: spec_fn(A) -> bool)
    requires
        0 <= i <= s.len(),
    ensures
        i <= run_end(s, i, kind) <= s.len(),
        forall|k: int| i <= k < run_end(s, i, kind) ==> kind(#[trigger] s[k]),
        run_end(s, i, kind) < s.len() ==> !kind(s[run_end(s, i, kind)]),
    decreases s.len() - i,
{
    if i < s.len() && kind(s[i]) {
        lemma_run_end(s, i + 1, kind);
    }
}

/// The place behind the comment that was opened before `i`: behind the
/// first `*/` at or behind `i`, or the end of the text if there is none.
pub open spec fn comment_end(s: Seq<A>, i: int) -> int
    decreases s.len() - i,
{
    if i < 0 || i + 1 >= s.len() {
        s.len() as int
    } else if s[i] == 0x2A && s[i + 1] == 0x2F {
        i + 2
    } else {
        comment_end(s, i + 1)
    }
}

/// A comment ends behind the place where it is looked for, and within the
/// text.
pub proof fn lemma_comment_end(s: Seq<A>, i: int)
    requires
        0 <= i <= s.len(),
    ensures
        i <= comment_end(s, i) <= s.len(),
    decreases s.len() - i,
{
    if i + 1 < s.len() && !(s[i] == 0x2A && s[i + 1] == 0x2F) {
        lemma_comment_end(s, i + 1);
    }
}

/// Whether the symbol does not end a line.
pub open spec fn in_line(c: A) -> bool {
    c != 0x0A
}

/// The place of the first symbol at or behind `i` that is neither white
/// space nor part of a comment. A comment runs from `//` to the end of the
/// line, or from `/*` to the next `*/`, or to the end of the text if there
/// is none. A backslash at the end of a line counts as white space.
pub open spec fn blank_end(s: Seq<A>, i: int) -> int
    decreases s.len() - i,
{
    if i < 0 || i >= s.len() {
        i
    } else if blank(s[i]) {
        blank_end(s, i + 1)
    } else if s[i] == 0x5C && i + 1 < s.len() && s[i + 1] == 0x0A {
        blank_end(s, i + 2)
    } else if s[i] == 0x2F && i + 1 < s.len() && s[i + 1] == 0x2F {
        let j = run_end(s, i + 2, |c: A| in_line(c));
        if i < j <= s.len() {
            blank_end(s, j)
        } else {
            i
        }
    } else if s[i] == 0x2F && i + 1 < s.len() && s[i + 1] == 0x2A {
        let j = comment_end(s, i + 2);
        if i < j <= s.len() {
            blank_end(s, j)
        } else {
            i
        }
    } else {
        i
    }
}

/// Skips white space and comments; see `blank_end`.
pub fn skip_blank(s: &[A], start: usize) -> (r: usize)
    requires
        start <= s@.len(),
    ensures
        r == blank_end(s@, start as int),
        start <= r <= s@.len(),
        r < s@.len() ==> !blank(s@[r as int]),
{
    let n = s.len();
    let mut i: usize = start;
    let mut going = true;
    while going && i < n
        invariant
            start <= i <= n,
            n == s@.len(),
            blank_end(s@, start as int) == blank_end(s@, i as int),
            !going ==> i < n && blank_end(s@, i as int) == i && !blank(s@[i as int]),
        decreases (n - i) + (if going { 1int } else { 0int }),
    {
        let c = s[i];
        if is_blank(c) {
            i = i + 1;
        } else if c == 0x5C && n - i > 1 && s[i + 1] == 0x0A {
            i = i + 2;
        } else if c == 0x2F && n - i > 1 && s[i + 1] == 0x2F {
            let ghost before = i;
            let ghost kind = |c: A| in_line(c);
            i = i + 2;
            while i < n && s[i] != 0x0A
                invariant
                    before + 2 <= i <= n,
                    n == s@.len(),
                    kind == (|c: A| in_line(c)),
                    run_end(s@, before + 2, kind) == run_end(s@, i as int, kind),
                decreases n - i,
            {
                assert(kind(s@[i as int]));
                i = i + 1;
            }
            assert(run_end(s@, i as int, kind) == i) by {
                if i < n {
                    assert(!kind(s@[i as int]));
                }
            }
        } else if c == 0x2F && n - i > 1 && s[i + 1] == 0x2A {
            let ghost before = i;
            i = i + 2;
            while n - i > 1 && !(s[i] == 0x2A && s[i + 1] == 0x2F)
                invariant
                    before + 2 <= i <= n,
                    n == s@.len(),
                    comment_end(s@, before + 2) == comment_end(s@, i as int),
                decreases n - i,
            {
                i = i + 1;
            }
            if n - i > 1 {
                i = i + 2;
            } else {
                i = n;
            }
        } else {
            going = false;
        }
    }
    i
}

/// The place of the first symbol `close` at or behind `start` that no
/// backslash stands before; a backslash escapes the symbol behind it.
pub open spec fn closing(s: Seq<A>, start: int, close: A) -> Option<int>
    decreases s.len() - start,
{
    if start < 0 || start >= s.len() {
        None
    } else if s[start] == close {
        Some(start)
    } else if s[start] == 0x5C {
        if start + 1 >= s.len() {
            None
        } else {
            closing(s, start + 2, close)
        }
    } else {
        closing(s, start + 1, close)
    }
}

/// The closing symbol that is found is the symbol asked for.
pub proof fn lemma_closing(s: Seq<A>, start: int, close: A)
    ensures
        closing(s, start, close) matches Some(j) ==> start <= j < s.len() && s[j] == close,
    decreases s.len() - start,
{
    if 0 <= start < s.len() && s[start] != close {
        if s[start] == 0x5C {
            if start + 1 < s.len() {
                lemma_closing(s, start + 2, close);
            }
        } else {
            lemma_closing(s, start + 1, close);
        }
    }
}

/// Finds the symbol that closes a literal; see `closing`.
pub fn find_closing(s: &[A], start: usize, close: A) -> (r: Option<usize>)
    requires
        start <= s@.len(),
    ensures
        match closing(s@, start as int, close) {
            Some(j) => r == Some(j as usize) && start <= j < s@.len() && s@[j] == close,
            None => r.is_none(),
        },
{
    let n = s.len();
    let mut i: usize = start;
    proof {
        lemma_closing(s@, start as int, close);
    }
    while i < n
        invariant
            start <= i <= n,
            n == s@.len(),
            closing(s@, start as int, close) == closing(s@, i as int, close),
        decreases n - i,
    {
        let c = s[i];
        if c == close {
            return Some(i);
        }
        if c == 0x5C {
            if n - i < 2 {
                return None;
            }
            i = i + 2;
        } else {
            i = i + 1;
        }
    }
    None
}

/// The text of the symbols from `from` up to `to`.
pub fn text_between(s: &[A], from: usize, to: usize) -> (r: String)
    requires
        word_scalar(s@),
        from <= to <= s@.len(),
    ensures
        r@ == chars_of_symbols(s@.subrange(from as int, to as int)),
{
    let part = slice_subrange(s, from, to);
    let chars = symbols_to_chars(part);
    string_from_chars(chars.as_slice())
}

/// The number that the decimal digits from `from` up to `to` stand for.
pub open spec fn digits_number(s: Seq<A>, from: int, to: int) -> nat
    decreases to - from,
{
    if to <= from {
        0
    } else {
        digits_number(s, from, to - 1) * 10 + (s[to - 1] - 0x30) as nat
    }
}

/// More digits stand for no smaller number.
pub proof fn lemma_digits_grow(s: Seq<A>, from: int, a: int, b: int)
    requires
        0 <= from <= a <= b <= s.len(),
        forall|k: int| from <= k < b ==> digit(#[trigger] s[k]),
    ensures
        digits_number(s, from, a) <= digits_number(s, from, b),
    decreases b - a,
{
    if a < b {
        lemma_digits_grow(s, from, a, b - 1);
        assert(digit(s[b - 1]));
    }
}

/// The place behind the name that begins at `start`.
pub fn name_end(s: &[A], start: usize) -> (r: usize)
    requires
        start <= s@.len(),
    ensures
        r == run_end(s@, start as int, |c: A| name_part(c)),
        start <= r <= s@.len(),
{
    let ghost kind = |c: A| name_part(c);
    let mut i: usize = start;
    while i < s.len() && is_name_part(s[i])
        invariant
            start <= i <= s@.len(),
            kind == (|c: A| name_part(c)),
            run_end(s@, start as int, kind) == run_end(s@, i as int, kind),
        decreases s@.len() - i,
    {
        assert(kind(s@[i as int]));
        i = i + 1;
    }
    assert(run_end(s@, i as int, kind) == i) by {
        if i < s@.len() {
            assert(!kind(s@[i as int]));
        }
    }
    i
}

/// The number that the digits from `start` on stand for, and the place behind
/// them; nothing if the number is above 2^31.
pub fn read_digits(s: &[A], start: usize) -> (r: Option<(u32, usize)>)
    requires
        start <= s@.len(),
    ensures
        ({
            let stop = run_end(s@, start as int, |c: A| digit(c));
            let value = digits_number(s@, start as int, stop);
            if value <= 0x8000_0000 {
                r == Some((value as u32, stop as usize)) && start <= stop <= s@.len()
            } else {
                r.is_none()
            }
        }),
{
    let ghost kind = |c: A| digit(c);
    let mut i: usize = start;
    let mut value: u64 = 0;
    proof {
        lemma_run_end(s@, start as int, kind);
    }
    while i < s.len() && is_digit(s[i])
        invariant
            start <= i <= s@.len(),
            kind == (|c: A| digit(c)),
            run_end(s@, start as int, kind) == run_end(s@, i as int, kind),
            i <= run_end(s@, start as int, kind) <= s@.len(),
            forall|k: int|
                start <= k < run_end(s@, start as int, kind) ==> kind(#[trigger] s@[k]),
            value == digits_number(s@, start as int, i as int),
            value <= 0x8000_0000u64,
        decreases s@.len() - i,
    {
        assert(kind(s@[i as int]));
        proof {
            lemma_run_end(s@, i + 1, kind);
        }
        value = value * 10 + (s[i] - 0x30) as u64;
        i = i + 1;
        if value > 0x8000_0000u64 {
            proof {
                let stop = run_end(s@, start as int, kind);
                assert forall|k: int| start <= k < stop implies digit(#[trigger] s@[k]) by {
                    assert(kind(s@[k]));
                }
                lemma_digits_grow(s@, start as int, i as int, stop);
            }
            return None;
        }
    }
    assert(run_end(s@, i as int, kind) == i) by {
        if i < s@.len() {
            assert(!kind(s@[i as int]));
        }
    }
    Some((value as u32, i))
}

/// Whether a hyphen stands among the symbols from `from` up to `to`.
pub open spec fn hyphen_between(s: Seq<A>, from: int, to: int) -> bool {
    exists|k: int| from <= k < to && s[k] == 0x2D
}

pub fn has_hyphen(s: &[A], from: usize, to: usize) -> (r: bool)
    requires
        from <= to <= s@.len(),
    ensures
        r == hyphen_between(s@, from as int, to as int),
{
    let mut i: usize = from;
    while i < to
        invariant
            from <= i <= to,
            to <= s@.len(),
            forall|k: int| from <= k < i ==> s@[k] != 0x2D,
        decreases to - i,
    {
        if s[i] == 0x2D {
            return true;
        }
        i = i + 1;
    }
    false
}

/// The error for source text that cannot be read at the place `at`.
pub fn unreadable(at: usize, text: &str) -> (r: CompErr)
    ensures
        r matches CompErr::Parse(p, m) && p == V::Position(at) && m@ == text@,
{
    CompErr::Parse(V::Position(at), text.to_owned())
}

/// The weight that the digits stand for behind a minus sign.
pub fn negated(value: u32) -> (r: W)
    requires
        value <= 0x8000_0000u32,
    ensures
        r == -(value as int),
{
    if value == 0x8000_0000u32 {
        i32::MIN
    } else {
        -(value as i32)
    }
}

/// The text of the symbols from `from` up to `to`.
pub open spec fn text_of(s: Seq<A>, from: int, to: int) -> Seq<char> {
    chars_of_symbols(s.subrange(from, to))
}

/// The token that begins at the place `i`, with the place behind it; nothing
/// if no token begins there.
///
/// A quote opens a string literal, which runs to the next quote that no
/// backslash escapes. `[` opens a bracket expression, which runs to the next
/// `]` that no backslash escapes and holds it. `<[` opens a list of
/// intervals of code points, which `]>` closes; `<` opens a list of code
/// points, which `>` closes and which is a list of intervals if it holds a
/// hyphen. Digits, behind a minus sign or without one, are a weight, which
/// must fit in 32 bits with its sign. A letter or an underscore begins a
/// name, which goes on with letters, underscores, digits and full stops;
/// the name `nonfunc` is a word of the language.
pub open spec fn token_at(s: Seq<A>, i: int) -> Option<(TokView, int)> {
    let c = s[i];
    let more = i + 1 < s.len();
    if c == 0x27 {
        match closing(s, i + 1, 0x27) {
            Some(j) => Some((TokView::Literal(text_of(s, i + 1, j)), j + 1)),
            None => None,
        }
    } else if c == 0x5B {
        match closing(s, i + 1, 0x5D) {
            Some(j) => Some((TokView::Bracket(text_of(s, i + 1, j + 1)), j + 1)),
            None => None,
        }
    } else if c == 0x3C {
        if more && s[i + 1] == 0x5B {
            match closing(s, i + 2, 0x5D) {
                Some(j) => if j + 1 < s.len() && s[j + 1] == 0x3E {
                    Some((TokView::CodepointRange(text_of(s, i + 2, j)), j + 2))
                } else {
                    None
                },
                None => None,
            }
        } else {
            match closing(s, i + 1, 0x3E) {
                Some(j) => if hyphen_between(s, i + 1, j) {
                    Some((TokView::CodepointRange(text_of(s, i + 1, j)), j + 1))
                } else {
                    Some((TokView::Codepoints(text_of(s, i + 1, j)), j + 1))
                },
                None => None,
            }
        }
    } else if c == 0x7C {
        if more && s[i + 1] == 0x7C {
            Some((TokView::Alternative, i + 2))
        } else {
            Some((TokView::Bar, i + 1))
        }
    } else if c == 0x21 {
        if more && s[i + 1] == 0x21 {
            Some((TokView::Copy, i + 2))
        } else if more && s[i + 1] == 0x28 {
            Some((TokView::Call, i + 2))
        } else {
            None
        }
    } else if c == 0x3D {
        Some((TokView::Assign, i + 1))
    } else if c == 0x3B {
        Some((TokView::Semicolon, i + 1))
    } else if c == 0x3A {
        Some((TokView::Colon, i + 1))
    } else if c == 0x2A {
        Some((TokView::Star, i + 1))
    } else if c == 0x2B {
        Some((TokView::Plus, i + 1))
    } else if c == 0x3F {
        Some((TokView::Question, i + 1))
    } else if c == 0x28 {
        Some((TokView::Open, i + 1))
    } else if c == 0x29 {
        Some((TokView::Close, i + 1))
    } else if c == 0x40 {
        Some((TokView::At, i + 1))
    } else if c == 0x2C {
        Some((TokView::Comma, i + 1))
    } else if c == 0x2205 {
        Some((TokView::Nothing, i + 1))
    } else if digit(c) {
        let stop = run_end(s, i, |c: A| digit(c));
        let value = digits_number(s, i, stop);
        if value <= 0x7FFF_FFFF {
            Some((TokView::Number(value as i32), stop))
        } else {
            None
        }
    } else if c == 0x2D && more && digit(s[i + 1]) {
        let stop = run_end(s, i + 1, |c: A| digit(c));
        let value = digits_number(s, i + 1, stop);
        if value <= 0x8000_0000 {
            Some((TokView::Number((-(value as int)) as i32), stop))
        } else {
            None
        }
    } else if name_start(c) {
        let stop = run_end(s, i, |c: A| name_part(c));
        let text = text_of(s, i, stop);
        if text == "nonfunc"@ {
            Some((TokView::Nonfunc, stop))
        } else {
            Some((TokView::Id(text), stop))
        }
    } else {
        None
    }
}

/// Reads the token that begins at `start`, and gives it with the place
/// behind it; see `token_at`. A token that cannot be read is an error at the
/// place `start`.
pub fn read_token(s: &[A], start: usize) -> (r: Result<(Tok, usize), CompErr>)
    requires
        word_scalar(s@),
        start < s@.len(),
    ensures
        match token_at(s@, start as int) {
            Some((t, end)) => r matches Ok((tok, e)) && tok@ == t && e == end && start < e
                <= s@.len(),
            None => r matches Err(CompErr::Parse(p, _)) && p == V::Position(start),
        },
{
    let n = s.len();
    let c = s[start];
    let next: Option<A> = if n - start > 1 {
        Some(s[start + 1])
    } else {
        None
    };
    if c == 0x27 {
        match find_closing(s, start + 1, 0x27) {
            Some(j) => Ok((Tok::Literal(text_between(s, start + 1, j)), j + 1)),
            None => Err(unreadable(start, "String literal is not closed")),
        }
    } else if c == 0x5B {
        match find_closing(s, start + 1, 0x5D) {
            Some(j) => Ok((Tok::Bracket(text_between(s, start + 1, j + 1)), j + 1)),
            None => Err(unreadable(start, "Range is not closed")),
        }
    } else if c == 0x3C {
        if next == Some(0x5B) {
            match find_closing(s, start + 2, 0x5D) {
                Some(j) => {
                    if n - j > 1 && s[j + 1] == 0x3E {
                        Ok((Tok::CodepointRange(text_between(s, start + 2, j)), j + 2))
                    } else {
                        Err(unreadable(start, "Range of code points is not closed"))
                    }
                },
                None => Err(unreadable(start, "Range of code points is not closed")),
            }
        } else {
            match find_closing(s, start + 1, 0x3E) {
                Some(j) => {
                    let text = text_between(s, start + 1, j);
                    if has_hyphen(s, start + 1, j) {
                        Ok((Tok::CodepointRange(text), j + 1))
                    } else {
                        Ok((Tok::Codepoints(text), j + 1))
                    }
                },
                None => Err(unreadable(start, "List of code points is not closed")),
            }
        }
    } else if c == 0x7C {
        if next == Some(0x7C) {
            Ok((Tok::Alternative, start + 2))
        } else {
            Ok((Tok::Bar, start + 1))
        }
    } else if c == 0x21 {
        if next == Some(0x21) {
            Ok((Tok::Copy, start + 2))
        } else if next == Some(0x28) {
            Ok((Tok::Call, start + 2))
        } else {
            Err(unreadable(start, "Unexpected symbol"))
        }
    } else if c == 0x3D {
        Ok((Tok::Assign, start + 1))
    } else if c == 0x3B {
        Ok((Tok::Semicolon, start + 1))
    } else if c == 0x3A {
        Ok((Tok::Colon, start + 1))
    } else if c == 0x2A {
        Ok((Tok::Star, start + 1))
    } else if c == 0x2B {
        Ok((Tok::Plus, start + 1))
    } else if c == 0x3F {
        Ok((Tok::Question, start + 1))
    } else if c == 0x28 {
        Ok((Tok::Open, start + 1))
    } else if c == 0x29 {
        Ok((Tok::Close, start + 1))
    } else if c == 0x40 {
        Ok((Tok::At, start + 1))
    } else if c == 0x2C {
        Ok((Tok::Comma, start + 1))
    } else if c == 0x2205 {
        Ok((Tok::Nothing, start + 1))
    } else if is_digit(c) {
        proof {
            let kind = |c: A| digit(c);
            assert(kind(s@[start as int]));
            lemma_run_end(s@, start + 1, kind);
        }
        match read_digits(s, start) {
            Some((value, end)) => {
                if value <= 0x7FFF_FFFFu32 {
                    Ok((Tok::Number(value as i32), end))
                } else {
                    Err(unreadable(start, "Weight is out of range"))
                }
            },
            None => Err(unreadable(start, "Weight is out of range")),
        }
    } else if c == 0x2D && n - start > 1 && is_digit(s[start + 1]) {
        proof {
            let kind = |c: A| digit(c);
            assert(kind(s@[start + 1]));
            lemma_run_end(s@, start + 2, kind);
        }
        match read_digits(s, start + 1) {
            Some((value, end)) => Ok((Tok::Number(negated(value)), end)),
            None => Err(unreadable(start, "Weight is out of range")),
        }
    } else if is_name_start(c) {
        proof {
            let kind = |c: A| name_part(c);
            assert(kind(s@[start as int]));
            lemma_run_end(s@, start + 1, kind);
        }
        let end = name_end(s, start);
        let text = text_between(s, start, end);
        if text.eq(&"nonfunc".to_owned()) {
            Ok((Tok::Nonfunc, end))
        } else {
            Ok((Tok::Id(text), end))
        }
    } else {
        Err(unreadable(start, "Unexpected symbol"))
    }
}

/// The tokens of the text from the place `i` on, each with the place of its
/// first symbol, or the first place behind white space and comments where
/// no token can be read.
pub open spec fn tokens_from(s: Seq<A>, i: int) -> Result<Seq<(TokView, usize)>, int>
    decreases s.len() - i,
{
    let j = blank_end(s, i);
    if j < i || j >= s.len() {
        Ok(Seq::empty())
    } else {
        match token_at(s, j) {
            None => Err(j),
            Some((t, k)) => if j < k <= s.len() {
                match tokens_from(s, k) {
                    Ok(rest) => Ok(seq![(t, j as usize)] + rest),
                    Err(at) => Err(at),
                }
            } else {
                Err(j)
            },
        }
    }
}

/// The tokens of a source text, each with the place of its first symbol;
/// see `tokens_from`. White space and comments stand between tokens and are
/// left out. The text is refused at the first place where no token can be
/// read.
pub fn lex(source: &str) -> (r: Result<Vec<Token>, CompErr>)
    ensures
        match tokens_from(symbols_of(source@), 0) {
            Ok(v) => r matches Ok(tokens) && tokens_view(tokens@) == v && in_order(
                tokens@,
                source@.len(),
            ),
            Err(at) => r matches Err(CompErr::Parse(p, _)) && p == V::Position(at as usize) && 0
                <= at < source@.len(),
        },
{
    let symbols = symbols_of_str(source);
    let s = symbols.as_slice();
    let n = s.len();
    let mut tokens: Vec<Token> = Vec::new();
    let ghost mut end: int = 0;
    let mut i: usize = skip_blank(s, 0);
    assert(tokens_view(tokens@) + Seq::<(TokView, usize)>::empty() =~= Seq::<
        (TokView, usize),
    >::empty());
    while i < n
        invariant
            0 <= end <= i <= n,
            n == s@.len(),
            s@ == symbols_of(source@),
            n == source@.len(),
            word_scalar(s@),
            in_order(tokens@, i as nat),
            i == blank_end(s@, end),
            tokens_from(s@, 0) == match tokens_from(s@, end) {
                Ok(rest) => Ok::<Seq<(TokView, usize)>, int>(tokens_view(tokens@) + rest),
                Err(at) => Err(at),
            },
        decreases n - i,
    {
        match read_token(s, i) {
            Ok((tok, next)) => {
                let ghost before = tokens@;
                let ghost t = tok@;
                tokens.push(Token { tok, offset: i });
                proof {
                    assert forall|a: int, b: int| 0 <= a < b < tokens@.len() implies (
                    #[trigger] tokens@[a]).offset < (#[trigger] tokens@[b]).offset by {
                        assert(tokens@[a] == before[a]);
                        if b < before.len() {
                            assert(tokens@[b] == before[b]);
                        }
                    }
                    assert forall|a: int| 0 <= a < tokens@.len() implies (
                    #[trigger] tokens@[a]).offset < next by {
                        if a < before.len() {
                            assert(tokens@[a] == before[a]);
                        }
                    }
                    assert(tokens_view(tokens@) =~= tokens_view(before) + seq![(t, i)]);
                    match tokens_from(s@, next as int) {
                        Ok(rest) => {
                            assert(tokens_view(before) + (seq![(t, i)] + rest) =~= tokens_view(
                                tokens@,
                            ) + rest);
                        },
                        Err(_) => {},
                    }
                    end = next as int;
                }
                i = skip_blank(s, next);
                proof {
                    assert forall|a: int| 0 <= a < tokens@.len() implies (
                    #[trigger] tokens@[a]).offset < i by {}
                }
            },
            Err(e) => {
                return Err(e);
            },
        }
    }
    proof {
        assert(tokens_view(tokens@) + Seq::<(TokView, usize)>::empty() =~= tokens_view(tokens@));
    }
    Ok(tokens)
}

} // verus!
