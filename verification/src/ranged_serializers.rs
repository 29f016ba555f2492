use crate::int_seq::{increment, A, REFLECT};
use crate::p::{PView, PartialEdge};
use crate::ranged_graph::{
    full_sigma_covered, transitions_view, RGView, RangeView, RangedGraph, Trans, TransitionView,
    Transitions,
};
use crate::text::push_str;
use crate::text::{char_from_u32, decimal, push_decimal, string_from_chars};
use vstd::prelude::*;
use vstd::utf8::is_scalar;

verus! {

/// The symbol that stands behind a backslash: `n`, `r`, `0`, `t`, `b` and `f`
/// name a control character, any other symbol stands for itself.
pub open spec fn unescaped(c: u32) -> u32 {
    if c == 'n' as u32 {
        '\n' as u32
    } else if c == 'r' as u32 {
        '\r' as u32
    } else if c == '0' as u32 {
        0
    } else if c == 't' as u32 {
        '\t' as u32
    } else if c == 'b' as u32 {
        7
    } else if c == 'f' as u32 {
        12
    } else {
        c
    }
}

pub fn unescape_a(c: A) -> (r: A)
    ensures
        r == unescaped(c),
{
    unescape_u32(c)
}

pub fn unescape_u32(c: u32) -> (r: u32)
    ensures
        r == unescaped(c),
{
    if c == 0x6E {
        0x0A
    } else if c == 0x72 {
        0x0D
    } else if c == 0x30 {
        0
    } else if c == 0x74 {
        0x09
    } else if c == 0x62 {
        7
    } else if c == 0x66 {
        12
    } else {
        c
    }
}

pub fn unescape_u8(c: u8) -> (r: u8)
    ensures
        r == unescaped(c as u32),
{
    if c == 0x6E {
        0x0A
    } else if c == 0x72 {
        0x0D
    } else if c == 0x30 {
        0
    } else if c == 0x74 {
        0x09
    } else if c == 0x62 {
        7
    } else if c == 0x66 {
        12
    } else {
        c
    }
}

pub fn unescape_character(c: char) -> (r: char)
    ensures
        r as u32 == unescaped(c as u32),
{
    if c == 'n' {
        '\n'
    } else if c == 'r' {
        '\r'
    } else if c == '0' {
        '\0'
    } else if c == 't' {
        '\t'
    } else if c == 'b' {
        '\u{7}'
    } else if c == 'f' {
        '\u{c}'
    } else {
        c
    }
}

/// How a symbol is written inside a literal: a control character that has an
/// escape by its escape, another Unicode scalar as the character itself, and a
/// symbol that is no scalar by its number.
pub open spec fn escaped(c: A) -> Seq<char> {
    if c == 0x0A {
        seq!['\\', 'n']
    } else if c == 0x0D {
        seq!['\\', 'r']
    } else if c == 0 {
        seq!['\\', '0']
    } else if c == 0x09 {
        seq!['\\', 't']
    } else if c == 7 {
        seq!['\\', 'b']
    } else if c == 12 {
        seq!['\\', 'f']
    } else if is_scalar(c) {
        seq![c as char]
    } else {
        decimal(c as int)
    }
}

/// Appends `escaped(c)` to `out`.
pub fn push_escaped(c: A, out: &mut Vec<char>)
    ensures
        final(out)@ == old(out)@ + escaped(c),
{
    if c == 0x0A {
        out.push('\\');
        out.push('n');
    } else if c == 0x0D {
        out.push('\\');
        out.push('r');
    } else if c == 0 {
        out.push('\\');
        out.push('0');
    } else if c == 0x09 {
        out.push('\\');
        out.push('t');
    } else if c == 7 {
        out.push('\\');
        out.push('b');
    } else if c == 12 {
        out.push('\\');
        out.push('f');
    } else {
        match char_from_u32(c) {
            Some(ch) => {
                proof {
                    vstd::utf8::char_u32_cast(ch, c);
                }
                out.push(ch);
            },
            None => {
                push_decimal(c as i64, out);
            },
        }
    }
    assert(out@ =~= old(out)@ + escaped(c));
}

pub fn escape_symbol(c: A) -> (r: String)
    ensures
        r@ == escaped(c),
{
    let mut out: Vec<char> = Vec::new();
    push_escaped(c, &mut out);
    assert(out@ =~= escaped(c));
    string_from_chars(out.as_slice())
}

/// Whether a symbol is written as itself inside quotes: a visible ASCII
/// character, a space, or a control character that has an escape.
pub open spec fn is_graphic(a: A) -> bool {
    (0x21 <= a <= 0x7E) || a == 0x20 || a == 0x0A || a == 0x0D || a == 0 || a == 0x09 || a == 7
        || a == 12
}

fn graphic(a: A) -> (r: bool)
    ensures
        r == is_graphic(a),
{
    (0x21 <= a && a <= 0x7E) || a == 0x20 || a == 0x0A || a == 0x0D || a == 0 || a == 0x09 || a
        == 7 || a == 12
}

/// The text of the symbols `s` that follow a symbol already written, where
/// `quoted` says whether that symbol stands inside quotes. Runs of graphic
/// symbols stand in quotes, runs of other symbols as numbers between `<` and `>`.
pub open spec fn literal_rest(s: Seq<A>, quoted: bool) -> Seq<char>
    decreases s.len(),
{
    if s.len() == 0 {
        if quoted {
            seq!['\'']
        } else {
            seq!['>']
        }
    } else {
        let c = s[0];
        let rest = s.subrange(1, s.len() as int);
        if quoted {
            if is_graphic(c) {
                escaped(c) + literal_rest(rest, true)
            } else {
                seq!['\'', '<'] + decimal(c as int) + literal_rest(rest, false)
            }
        } else {
            if is_graphic(c) {
                seq!['>', '\''] + escaped(c) + literal_rest(rest, true)
            } else {
                seq![' '] + decimal(c as int) + literal_rest(rest, false)
            }
        }
    }
}

/// The text of a string of symbols as a literal of the source language.
pub open spec fn literal_text(s: Seq<A>) -> Seq<char> {
    if s.len() == 0 {
        seq!['\'', '\'']
    } else {
        let a = s[0];
        let rest = s.subrange(1, s.len() as int);
        if is_graphic(a) {
            seq!['\''] + escaped(a) + literal_rest(rest, true)
        } else {
            seq!['<'] + decimal(a as int) + literal_rest(rest, false)
        }
    }
}

/// Appends `literal_text(symbols)` to `out`.
pub fn push_literal(symbols: &[A], out: &mut Vec<char>)
    ensures
        final(out)@ == old(out)@ + literal_text(symbols@),
{
    let n = symbols.len();
    if n == 0 {
        out.push('\'');
        out.push('\'');
        assert(out@ =~= old(out)@ + literal_text(symbols@));
        return ;
    }
    let a = symbols[0];
    let mut quoted = graphic(a);
    if quoted {
        out.push('\'');
        push_escaped(a, out);
    } else {
        out.push('<');
        push_decimal(a as i64, out);
    }
    let mut i: usize = 1;
    assert(out@ + literal_rest(symbols@.subrange(1, n as int), quoted) =~= old(out)@
        + literal_text(symbols@));
    while i < n
        invariant
            1 <= i <= n,
            n == symbols@.len(),
            out@ + literal_rest(symbols@.subrange(i as int, n as int), quoted) == old(out)@
                + literal_text(symbols@),
        decreases n - i,
    {
        let c = symbols[i];
        let ghost before = out@;
        let ghost was = quoted;
        let ghost here = symbols@.subrange(i as int, n as int);
        let ghost rest = symbols@.subrange(i + 1, n as int);
        assert(here[0] == c);
        assert(here.subrange(1, here.len() as int) =~= rest);
        if quoted {
            if graphic(c) {
                push_escaped(c, out);
            } else {
                quoted = false;
                out.push('\'');
                out.push('<');
                push_decimal(c as i64, out);
            }
        } else {
            if graphic(c) {
                quoted = true;
                out.push('>');
                out.push('\'');
                push_escaped(c, out);
            } else {
                out.push(' ');
                push_decimal(c as i64, out);
            }
        }
        assert(out@ + literal_rest(rest, quoted) =~= before + literal_rest(here, was));
        i = i + 1;
    }
    assert(symbols@.subrange(n as int, n as int).len() == 0);
    if quoted {
        out.push('\'');
    } else {
        out.push('>');
    }
    assert(out@ =~= old(out)@ + literal_text(symbols@));
}

/// The symbols as a literal of the source language.
pub fn serialise_literal(symbols: &[A]) -> (r: String)
    ensures
        r@ == literal_text(symbols@),
{
    let mut out: Vec<char> = Vec::new();
    push_literal(symbols, &mut out);
    assert(out@ =~= literal_text(symbols@));
    string_from_chars(out.as_slice())
}

/// How a symbol is written in a listing: a visible ASCII character as itself,
/// a control character that has an escape by its escape, any other by its
/// number.
pub open spec fn symbol_text(s: A) -> Seq<char> {
    if 0x21 <= s <= 0x7E {
        seq![s as char]
    } else if s == 0x0A || s == 0x0D || s == 0 || s == 0x09 || s == 7 || s == 12 {
        escaped(s)
    } else {
        decimal(s as int)
    }
}

pub fn serialise_symbol(s: A) -> (r: String)
    ensures
        r@ == symbol_text(s),
{
    let mut out: Vec<char> = Vec::new();
    if (0x21 <= s && s <= 0x7E) || s == 0x0A || s == 0x0D || s == 0 || s == 0x09 || s == 7 || s
        == 12 {
        push_escaped(s, &mut out);
    } else {
        crate::text::push_digits(s as u64, &mut out);
    }
    assert(out@ =~= symbol_text(s));
    string_from_chars(out.as_slice())
}

/// The text of the interval of the symbols from `from_inclusive` to
/// `to_inclusive`: one symbol, or the two ends with a hyphen between them.
pub open spec fn inclusive_range_text(from_inclusive: A, to_inclusive: A) -> Seq<char> {
    if from_inclusive == to_inclusive {
        escaped(from_inclusive)
    } else {
        escaped(from_inclusive) + seq!['-'] + escaped(to_inclusive)
    }
}

/// Appends `inclusive_range_text(from_inclusive, to_inclusive)` to `out`.
pub fn push_inclusive_range(from_inclusive: A, to_inclusive: A, out: &mut Vec<char>)
    requires
        from_inclusive <= to_inclusive,
    ensures
        final(out)@ == old(out)@ + inclusive_range_text(from_inclusive, to_inclusive),
{
    if from_inclusive == to_inclusive {
        push_escaped(from_inclusive, out);
    } else {
        push_escaped(from_inclusive, out);
        out.push('-');
        push_escaped(to_inclusive, out);
        assert(out@ =~= old(out)@ + inclusive_range_text(from_inclusive, to_inclusive));
    }
}

pub fn serialise_inclusive_range(from_inclusive: A, to_inclusive: A) -> (r: String)
    requires
        from_inclusive <= to_inclusive,
    ensures
        r@ == inclusive_range_text(from_inclusive, to_inclusive),
{
    let mut out: Vec<char> = Vec::new();
    push_inclusive_range(from_inclusive, to_inclusive, &mut out);
    assert(out@ =~= inclusive_range_text(from_inclusive, to_inclusive));
    string_from_chars(out.as_slice())
}

pub fn serialise_exclusive_range(from_exclusive: A, to_inclusive: A) -> (r: String)
    requires
        from_exclusive < to_inclusive,
    ensures
        r@ == inclusive_range_text((from_exclusive + 1) as A, to_inclusive),
{
    serialise_inclusive_range(increment(from_exclusive), to_inclusive)
}


/// The line of a transition from the state `state` over the symbols from
/// `from_exclusive` (not included) to `to_inclusive`: nothing for a transition
/// to the sink; otherwise the state, the target, the interval, the weight and
/// the output, set apart by spaces, and a line break.
pub open spec fn att_transition(state: nat, from_exclusive: A, to_inclusive: A, t: TransitionView) -> Seq<
    char,
> {
    match t.target {
        None => Seq::empty(),
        Some(target) => decimal(state as int) + seq![' '] + decimal(target as int) + seq![' ']
            + inclusive_range_text((from_exclusive + 1) as A, to_inclusive) + seq![' '] + decimal(
            t.weight as int,
        ) + seq![' '] + t.output + seq!['\n'],
    }
}

/// The lines of the first `n` transitions of a range.
pub open spec fn att_edges(
    state: nat,
    from_exclusive: A,
    to_inclusive: A,
    edges: Seq<TransitionView>,
    n: nat,
) -> Seq<char>
    decreases n,
{
    if n == 0 || n > edges.len() {
        Seq::empty()
    } else {
        att_edges(state, from_exclusive, to_inclusive, edges, (n - 1) as nat) + att_transition(
            state,
            from_exclusive,
            to_inclusive,
            edges[n - 1],
        )
    }
}

/// The lines of the first `n` ranges of the table of a state. Each range
/// begins behind the range before it, and the first behind the reflection
/// marker.
pub open spec fn att_ranges(state: nat, ranges: Seq<RangeView>, n: nat) -> Seq<char>
    decreases n,
{
    if n == 0 || n > ranges.len() {
        Seq::empty()
    } else {
        let from = if n == 1 {
            REFLECT
        } else {
            ranges[n - 2].input
        };
        att_ranges(state, ranges, (n - 1) as nat) + att_edges(
            state,
            from,
            ranges[n - 1].input,
            ranges[n - 1].edges,
            ranges[n - 1].edges.len(),
        )
    }
}

/// The line of an accepting state: the state, the weight and the output, and
/// a line break; nothing for a state that does not accept.
pub open spec fn att_accepting(state: nat, accepting: Option<PView>) -> Seq<char> {
    match accepting {
        None => Seq::empty(),
        Some(p) => decimal(state as int) + seq![' '] + decimal(p.weight as int) + seq![' ']
            + p.output + seq!['\n'],
    }
}

/// The listing of the first `n` states of a ranged graph: for each state the
/// lines of its transitions and then the line with which it accepts.
pub open spec fn att_text(rg: RGView, n: nat) -> Seq<char>
    decreases n,
{
    if n == 0 || n > rg.graph.len() {
        Seq::empty()
    } else {
        att_text(rg, (n - 1) as nat) + att_ranges(
            (n - 1) as nat,
            rg.graph[n - 1],
            rg.graph[n - 1].len(),
        ) + att_accepting((n - 1) as nat, rg.accepting[n - 1])
    }
}

/// Appends the lines of the table of a state; see `att_ranges`.
pub fn push_att_ranges(state: usize, table: &Transitions, out: &mut Vec<char>)
    requires
        full_sigma_covered(table@),
    ensures
        final(out)@ == old(out)@ + att_ranges(state as nat, table@, table@.len()),
{
    let mut from: A = REFLECT;
    let mut i: usize = 0;
    assert(old(out)@ + att_ranges(state as nat, table@, 0) =~= old(out)@);
    while i < table.len()
        invariant
            i <= table@.len(),
            full_sigma_covered(table@),
            from == if i == 0 {
                REFLECT
            } else {
                table@[i - 1].input
            },
            out@ == old(out)@ + att_ranges(state as nat, table@, i as nat),
        decreases table@.len() - i,
    {
        let range = table.get(i);
        let to = range.input();
        let edges = range.edges();
        let ghost base = out@;
        let ghost ev = range@.edges;
        proof {
            if i > 0 {
                assert(table@[i - 1].input < table@[i as int].input);
            }
        }
        let mut j: usize = 0;
        assert(base + att_edges(state as nat, from, to, ev, 0) =~= base);
        while j < edges.len()
            invariant
                j <= edges.len(),
                from < to,
                ev == transitions_view(edges@),
                out@ == base + att_edges(state as nat, from, to, ev, j as nat),
            decreases edges.len() - j,
        {
            let edge = &edges[j];
            let ghost before = out@;
            assert(ev[j as int] == edge@);
            match edge.target() {
                Some(target) => {
                    let index = crate::ranged_graph::nonsink_get(&target);
                    crate::text::push_digits(state as u64, out);
                    out.push(' ');
                    crate::text::push_digits(index as u64, out);
                    out.push(' ');
                    push_inclusive_range(increment(from), to, out);
                    out.push(' ');
                    push_decimal(edge.weight() as i64, out);
                    out.push(' ');
                    push_str(edge.output().as_str(), out);
                    out.push('\n');
                    assert(out@ =~= before + att_transition(state as nat, from, to, edge@));
                },
                None => {
                    assert(out@ =~= before + att_transition(state as nat, from, to, edge@));
                },
            }
            proof {
                assert(base + att_edges(state as nat, from, to, ev, (j + 1) as nat) =~= (base
                    + att_edges(state as nat, from, to, ev, j as nat)) + att_transition(
                    state as nat,
                    from,
                    to,
                    edge@,
                ));
            }
            j = j + 1;
        }
        proof {
            assert(old(out)@ + att_ranges(state as nat, table@, (i + 1) as nat) =~= (old(out)@
                + att_ranges(state as nat, table@, i as nat)) + att_edges(
                state as nat,
                from,
                to,
                ev,
                ev.len(),
            ));
        }
        from = to;
        i = i + 1;
    }
}

impl RangedGraph {
    /// The listing of the graph in the AT&T format: one line for every
    /// transition that does not lead to the sink, and one line for every
    /// accepting state; see `att_text`.
    pub fn serialise_att(&self) -> (r: String)
        ensures
            r@ == att_text(self@, self@.len()),
    {
        let mut out: Vec<char> = Vec::new();
        let n = self.len();
        let mut s: usize = 0;
        assert(out@ =~= att_text(self@, 0));
        while s < n
            invariant
                s <= n,
                n == self@.len(),
                out@ == att_text(self@, s as nat),
            decreases n - s,
        {
            let ghost before = out@;
            self.validity();
            let table = self.transitions_at(s);
            push_att_ranges(s, table, &mut out);
            let ghost middle = out@;
            match self.accepting_at(s) {
                Some(fin) => {
                    crate::text::push_digits(s as u64, &mut out);
                    out.push(' ');
                    push_decimal(fin.weight() as i64, &mut out);
                    out.push(' ');
                    push_str(fin.output().as_str(), &mut out);
                    out.push('\n');
                    assert(out@ =~= middle + att_accepting(s as nat, self@.accepting[s as int]));
                },
                None => {
                    assert(out@ =~= middle + att_accepting(s as nat, self@.accepting[s as int]));
                },
            }
            proof {
                assert(att_text(self@, (s + 1) as nat) =~= before + att_ranges(
                    s as nat,
                    self@.graph[s as int],
                    self@.graph[s as int].len(),
                ) + att_accepting(s as nat, self@.accepting[s as int]));
            }
            s = s + 1;
        }
        string_from_chars(out.as_slice())
    }
}

} // verus!
