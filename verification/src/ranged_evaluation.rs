use crate::int_seq::{symbols_of, IntSeq, A, REFLECT};
use crate::p::{PartialEdge, W};
use crate::ranged_graph::{
    nonsink_get, range_index, transitions_view, RGView, RangedGraph, Trans, Transition,
    TransitionView,
};
use vstd::prelude::*;
use vstd::utf8::is_scalar;

verus! {

/// One entry of a column of the backtracking table: a state that is active
/// after some prefix of the input, the place in the previous column from which
/// it was reached, and the transition by which it was reached. The one entry of
/// the first column has no transition.
pub struct NodeView {
    pub prev_index: usize,
    pub state: usize,
    pub edge: Option<TransitionView>,
}

/// The transitions that the state can take on the symbol.
pub open spec fn lookup(rg: RGView, state: usize, symbol: A) -> Seq<TransitionView> {
    rg.graph[state as int][range_index(rg.graph[state as int], symbol)].edges
}

/// The column after the transition `tr` was tried from the entry at place `src`
/// of the previous column. A transition to the sink changes nothing. A
/// transition to a state that is not in the column yet adds an entry at the
/// end. A transition to a state that is in the column takes the place of the
/// transition recorded there if its weight is strictly greater.
pub open spec fn step(col: Seq<NodeView>, src: usize, tr: TransitionView) -> Seq<NodeView> {
    match tr.target {
        None => col,
        Some(t) => {
            let entry = NodeView { prev_index: src, state: t, edge: Some(tr) };
            if exists|p: int| 0 <= p < col.len() && (#[trigger] col[p]).state == t {
                let p = choose|p: int| 0 <= p < col.len() && (#[trigger] col[p]).state == t;
                if col[p].edge.unwrap().weight < tr.weight {
                    col.update(p, entry)
                } else {
                    col
                }
            } else {
                col.push(entry)
            }
        },
    }
}

/// The column after the transitions `trs` were tried in turn from the entry at
/// place `src` of the previous column.
pub open spec fn step_all(col: Seq<NodeView>, src: usize, trs: Seq<TransitionView>) -> Seq<
    NodeView,
>
    decreases trs.len(),
{
    if trs.len() == 0 {
        col
    } else {
        step(step_all(col, src, trs.drop_last()), src, trs.last())
    }
}

/// The next column after the first `n` entries of the column `prev` were
/// followed on `symbol`.
pub open spec fn next_column_upto(rg: RGView, prev: Seq<NodeView>, symbol: A, n: nat) -> Seq<
    NodeView,
>
    decreases n,
{
    if n == 0 {
        Seq::empty()
    } else {
        step_all(
            next_column_upto(rg, prev, symbol, (n - 1) as nat),
            (n - 1) as usize,
            lookup(rg, prev[n - 1].state, symbol),
        )
    }
}

/// The column of the states that are active after the first `k` symbols of the
/// input, in the order in which they were first reached.
pub open spec fn column(rg: RGView, input: Seq<A>, k: nat) -> Seq<NodeView>
    decreases k,
{
    if k == 0 {
        seq![NodeView { prev_index: 0, state: rg.initial, edge: None }]
    } else {
        let prev = column(rg, input, (k - 1) as nat);
        next_column_upto(rg, prev, input[k - 1], prev.len())
    }
}

/// The place, among the first `n` entries of a column, of the entry that is
/// chosen at the end: the first one among those whose states accept with the
/// greatest final weight.
pub open spec fn best_final(rg: RGView, col: Seq<NodeView>, n: nat) -> Option<int>
    decreases n,
{
    if n == 0 {
        None
    } else {
        let before = best_final(rg, col, (n - 1) as nat);
        match rg.accepting[col[n - 1].state as int] {
            None => before,
            Some(p) => match before {
                None => Some(n - 1),
                Some(b) => if p.weight > rg.accepting[col[b].state as int].unwrap().weight {
                    Some(n - 1)
                } else {
                    before
                },
            },
        }
    }
}

/// The output of a transition that consumed `symbol`: its own output with
/// every reflection marker replaced by the symbol.
pub open spec fn reflect(output: Seq<A>, symbol: A) -> Seq<A> {
    output.map_values(
        |o: A|
            if o == REFLECT {
                symbol
            } else {
                o
            },
    )
}

/// The output without reflection markers.
pub open spec fn strip_reflect(output: Seq<A>) -> Seq<A>
    decreases output.len(),
{
    if output.len() == 0 {
        Seq::empty()
    } else if output.last() == REFLECT {
        strip_reflect(output.drop_last())
    } else {
        strip_reflect(output.drop_last()).push(output.last())
    }
}

/// The output along the path that ends in the entry at place `idx` of the
/// column `k`.
pub open spec fn path_output(rg: RGView, input: Seq<A>, k: nat, idx: int) -> Seq<A>
    decreases k,
{
    if k == 0 {
        Seq::empty()
    } else {
        let node = column(rg, input, k)[idx];
        path_output(rg, input, (k - 1) as nat, node.prev_index as int) + reflect(
            symbols_of(node.edge.unwrap().output),
            input[k - 1],
        )
    }
}

/// What the graph gives for the input: nothing, if no state that is active
/// after the whole input accepts; otherwise the output along the path to the
/// chosen entry of the last column, followed by the final output of its state
/// without reflection markers.
pub open spec fn evaluate(rg: RGView, input: Seq<A>) -> Option<Seq<A>> {
    let last = column(rg, input, input.len());
    match best_final(rg, last, last.len()) {
        None => None,
        Some(b) => Some(
            path_output(rg, input, input.len(), b) + strip_reflect(
                symbols_of(rg.accepting[last[b].state as int].unwrap().output),
            ),
        ),
    }
}

/// Whether a column is a proper one behind a column of `prev_len` entries:
/// every entry holds a state of the graph, a place in the previous column and
/// a transition, and no state stands twice.
pub open spec fn column_ok(rg: RGView, prev_len: nat, col: Seq<NodeView>) -> bool {
    &&& forall|p: int|
        0 <= p < col.len() ==> (#[trigger] col[p]).state < rg.len() && col[p].prev_index < prev_len
            && col[p].edge.is_some()
    &&& forall|p: int, q: int|
        0 <= p < q < col.len() ==> (#[trigger] col[p]).state != (#[trigger] col[q]).state
}

/// A scratchpad for evaluation: for each state a place in the column that is
/// being built. It can be used again and again; what it holds before a call
/// does not matter.
#[derive(Debug)]
pub struct StateToIndexTable(pub Vec<usize>);

impl View for StateToIndexTable {
    type V = Seq<usize>;

    open spec fn view(&self) -> Seq<usize> {
        self.0@
    }
}

impl StateToIndexTable {
    /// A scratchpad for graphs of up to `size` states.
    pub fn new(size: usize) -> (r: Self)
        ensures
            r@.len() == size,
    {
        let mut v: Vec<usize> = Vec::with_capacity(size);
        let mut i: usize = 0;
        while i < size
            invariant
                i <= size,
                v@.len() == i,
            decreases size - i,
        {
            v.push(0);
            i = i + 1;
        }
        StateToIndexTable(v)
    }

    /// Makes room for graphs of up to `len` states.
    pub fn ensure_length(&mut self, len: usize)
        ensures
            final(self)@.len() >= len,
            final(self)@.len() >= old(self)@.len(),
    {
        while self.0.len() < len
            invariant
                self@.len() >= old(self)@.len(),
            decreases len - self.0.len(),
        {
            self.0.push(0);
        }
    }

    /// The number of states for which there is room.
    pub fn len(&self) -> (r: usize)
        ensures
            r == self@.len(),
    {
        self.0.len()
    }
}

/// A buffer of `size` symbols of output, each of which is 0 until it is
/// written.
pub fn new_output_buffer(size: usize) -> (r: Vec<u32>)
    ensures
        r@ == Seq::new(size as nat, |i: int| 0u32),
{
    let mut buffer: Vec<u32> = Vec::with_capacity(size);
    let mut i: usize = 0;
    while i < size
        invariant
            i <= size,
            buffer@ == Seq::new(i as nat, |k: int| 0u32),
        decreases size - i,
    {
        buffer.push(0);
        assert(buffer@ =~= Seq::new((i + 1) as nat, |k: int| 0u32));
        i = i + 1;
    }
    buffer
}

/// One entry of a column, as it is kept while the table is built.
pub struct BacktrackingNode<'a> {
    pub prev_index: usize,
    pub state: usize,
    pub edge: Option<&'a Transition>,
}

impl<'a> View for BacktrackingNode<'a> {
    type V = NodeView;

    open spec fn view(&self) -> NodeView {
        NodeView {
            prev_index: self.prev_index,
            state: self.state,
            edge: match self.edge {
                Some(t) => Some(t@),
                None => None,
            },
        }
    }
}

/// What a column is.
pub open spec fn column_view(col: Seq<BacktrackingNode>) -> Seq<NodeView> {
    col.map_values(|n: BacktrackingNode| n@)
}


/// Whether the scratchpad knows the place of every state of the column.
pub open spec fn indexed(table: Seq<usize>, col: Seq<NodeView>) -> bool {
    forall|p: int| 0 <= p < col.len() ==> table[(#[trigger] col[p]).state as int] == p
}

/// Tries the transitions `trs` from the entry at place `src` of the previous
/// column; see `step_all`.
pub fn follow<'a>(
    rg: &'a RangedGraph,
    state_to_index: &mut StateToIndexTable,
    next: &mut Vec<BacktrackingNode<'a>>,
    src: usize,
    prev_len: usize,
    trs: &'a Vec<Transition>,
)
    requires
        old(state_to_index)@.len() >= rg@.len(),
        src < prev_len,
        column_ok(rg@, prev_len as nat, column_view(old(next)@)),
        indexed(old(state_to_index)@, column_view(old(next)@)),
        forall|j: int|
            0 <= j < trs@.len() ==> (#[trigger] trs@[j])@.target.is_none()
                || trs@[j]@.target.unwrap() < rg@.len(),
    ensures
        final(state_to_index)@.len() == old(state_to_index)@.len(),
        column_view(final(next)@) == step_all(
            column_view(old(next)@),
            src,
            transitions_view(trs@),
        ),
        column_ok(rg@, prev_len as nat, column_view(final(next)@)),
        indexed(final(state_to_index)@, column_view(final(next)@)),
{
    let ghost tv = transitions_view(trs@);
    let ghost start = column_view(next@);
    let mut j: usize = 0;
    assert(tv.subrange(0, 0) =~= Seq::empty());
    while j < trs.len()
        invariant
            j <= trs.len(),
            tv == transitions_view(trs@),
            state_to_index@.len() == old(state_to_index)@.len(),
            state_to_index@.len() >= rg@.len(),
            src < prev_len,
            column_ok(rg@, prev_len as nat, column_view(next@)),
            indexed(state_to_index@, column_view(next@)),
            forall|j: int|
                0 <= j < trs@.len() ==> (#[trigger] trs@[j])@.target.is_none()
                    || trs@[j]@.target.unwrap() < rg@.len(),
            column_view(next@) == step_all(start, src, tv.subrange(0, j as int)),
        decreases trs.len() - j,
    {
        let tr = &trs[j];
        let ghost col = column_view(next@);
        proof {
            assert(tv.subrange(0, j + 1).drop_last() =~= tv.subrange(0, j as int));
            assert(tv.subrange(0, j + 1).last() == tr@);
        }
        match tr.target() {
            None => {},
            Some(dest) => {
                let t = nonsink_get(&dest);
                let idx = state_to_index.0[t];
                if idx < next.len() && next[idx].state == t {
                    proof {
                        assert(col[idx as int].state == t);
                        let p = choose|p: int| 0 <= p < col.len() && (#[trigger] col[p]).state == t;
                        if p < idx {
                            assert(col[p].state != col[idx as int].state);
                        } else if idx < p {
                            assert(col[idx as int].state != col[p].state);
                        }
                    }
                    let current = next[idx].edge.unwrap();
                    if current.weight() < tr.weight() {
                        next[idx] = BacktrackingNode { prev_index: src, state: t, edge: Some(tr) };
                        proof {
                            let entry = NodeView { prev_index: src, state: t, edge: Some(tr@) };
                            assert(column_view(next@) =~= col.update(idx as int, entry));
                        }
                    }
                } else {
                    proof {
                        if exists|p: int| 0 <= p < col.len() && (#[trigger] col[p]).state == t {
                            let p = choose|p: int|
                                0 <= p < col.len() && (#[trigger] col[p]).state == t;
                            assert(state_to_index@[col[p].state as int] == p);
                            assert(false);
                        }
                    }
                    state_to_index.0[t] = next.len();
                    next.push(BacktrackingNode { prev_index: src, state: t, edge: Some(tr) });
                    proof {
                        let entry = NodeView { prev_index: src, state: t, edge: Some(tr@) };
                        assert(column_view(next@) =~= col.push(entry));
                        assert forall|p: int| 0 <= p < col.len() implies (#[trigger] col[p]).state
                            != t by {
                            if col[p].state == t {
                                assert(exists|q: int|
                                    0 <= q < col.len() && (#[trigger] col[q]).state == t);
                            }
                        }
                    }
                }
            },
        }
        j = j + 1;
    }
    assert(tv.subrange(0, j as int) =~= tv);
}

/// The column behind the column `prev` on `symbol`; see `next_column_upto`.
pub fn advance<'a>(
    rg: &'a RangedGraph,
    state_to_index: &mut StateToIndexTable,
    prev: &Vec<BacktrackingNode<'a>>,
    symbol: A,
) -> (next: Vec<BacktrackingNode<'a>>)
    requires
        old(state_to_index)@.len() >= rg@.len(),
        forall|p: int| 0 <= p < prev@.len() ==> (#[trigger] prev@[p]).state < rg@.len(),
    ensures
        final(state_to_index)@.len() == old(state_to_index)@.len(),
        column_view(next@) == next_column_upto(
            rg@,
            column_view(prev@),
            symbol,
            prev@.len() as nat,
        ),
        column_ok(rg@, prev@.len() as nat, column_view(next@)),
{
    let mut next: Vec<BacktrackingNode<'a>> = Vec::new();
    let mut src: usize = 0;
    assert(column_view(next@) =~= Seq::empty());
    while src < prev.len()
        invariant
            src <= prev.len(),
            state_to_index@.len() == old(state_to_index)@.len(),
            state_to_index@.len() >= rg@.len(),
            forall|p: int| 0 <= p < prev@.len() ==> (#[trigger] prev@[p]).state < rg@.len(),
            column_ok(rg@, prev@.len() as nat, column_view(next@)),
            indexed(state_to_index@, column_view(next@)),
            column_view(next@) == next_column_upto(rg@, column_view(prev@), symbol, src as nat),
        decreases prev.len() - src,
    {
        let state = prev[src].state;
        let table = rg.transitions_at(state);
        let trs = table.binary_search(symbol);
        proof {
            assert(column_view(prev@)[src as int].state == state);
            let ranges = rg@.graph[state as int];
            crate::ranged_graph::lemma_range_index(ranges, symbol);
            let i = range_index(ranges, symbol);
            assert forall|j: int| 0 <= j < trs@.len() implies (#[trigger] trs@[j])@.target.is_none()
                || trs@[j]@.target.unwrap() < rg@.len() by {
                assert(ranges[i].edges[j] == trs@[j]@);
            }
        }
        follow(rg, state_to_index, &mut next, src, prev.len(), trs);
        src = src + 1;
    }
    next
}


/// Whether every symbol is a Unicode scalar value.
pub open spec fn all_scalars(symbols: Seq<A>) -> bool {
    forall|i: int| 0 <= i < symbols.len() ==> is_scalar(#[trigger] symbols[i])
}

/// Appends the output of a transition that consumed `symbol`; see `reflect`.
pub fn push_reflected(out: &mut Vec<A>, output: &IntSeq, symbol: A)
    ensures
        final(out)@ == old(out)@ + reflect(output.symbols(), symbol),
        all_scalars(old(out)@) && is_scalar(symbol) ==> all_scalars(final(out)@),
{
    let symbols = output.to_symbols();
    let mut i: usize = 0;
    assert(old(out)@ + reflect(symbols@, symbol).subrange(0, 0) =~= old(out)@);
    while i < symbols.len()
        invariant
            i <= symbols.len(),
            symbols@ == output.symbols(),
            out@ == old(out)@ + reflect(symbols@, symbol).subrange(0, i as int),
            all_scalars(old(out)@) && is_scalar(symbol) ==> all_scalars(out@),
        decreases symbols.len() - i,
    {
        let o = symbols[i];
        let c = if o == REFLECT {
            symbol
        } else {
            o
        };
        proof {
            vstd::utf8::char_is_scalar(output@[i as int]);
            assert(old(out)@ + reflect(symbols@, symbol).subrange(0, i + 1) =~= (old(out)@
                + reflect(symbols@, symbol).subrange(0, i as int)).push(c));
        }
        out.push(c);
        i = i + 1;
    }
    assert(reflect(symbols@, symbol).subrange(0, i as int) =~= reflect(symbols@, symbol));
}

/// Appends the output without its reflection markers; see `strip_reflect`.
pub fn push_stripped(out: &mut Vec<A>, output: &IntSeq)
    ensures
        final(out)@ == old(out)@ + strip_reflect(output.symbols()),
        all_scalars(old(out)@) ==> all_scalars(final(out)@),
{
    let symbols = output.to_symbols();
    let mut i: usize = 0;
    assert(symbols@.subrange(0, 0) =~= Seq::empty());
    assert(old(out)@ + strip_reflect(symbols@.subrange(0, 0)) =~= old(out)@);
    while i < symbols.len()
        invariant
            i <= symbols.len(),
            symbols@ == output.symbols(),
            out@ == old(out)@ + strip_reflect(symbols@.subrange(0, i as int)),
            all_scalars(old(out)@) ==> all_scalars(out@),
        decreases symbols.len() - i,
    {
        let o = symbols[i];
        proof {
            vstd::utf8::char_is_scalar(output@[i as int]);
            assert(symbols@.subrange(0, i + 1).drop_last() =~= symbols@.subrange(0, i as int));
        }
        if o != REFLECT {
            proof {
                assert(old(out)@ + strip_reflect(symbols@.subrange(0, i + 1)) =~= (old(out)@
                    + strip_reflect(symbols@.subrange(0, i as int))).push(o));
            }
            out.push(o);
        }
        i = i + 1;
    }
    assert(symbols@.subrange(0, i as int) =~= symbols@);
}

/// Whether the table holds the columns for every prefix of the input.
pub open spec fn table_ok(rg: RGView, input: Seq<A>, table: Seq<Vec<BacktrackingNode>>) -> bool {
    &&& table.len() == input.len() + 1
    &&& forall|k: int|
        0 <= k < table.len() ==> column_view((#[trigger] table[k])@) == column(rg, input, k as nat)
    &&& forall|k: int|
        1 <= k < table.len() ==> column_ok(
            rg,
            table[k - 1]@.len() as nat,
            column_view((#[trigger] table[k])@),
        )
}

/// The place in each column of the entry that lies on the path to the entry
/// at place `b` of the last column of a table of the given graph.
pub fn trace_path(rg: &RangedGraph, table: &Vec<Vec<BacktrackingNode>>, b: usize) -> (path: Vec<
    usize,
>)
    requires
        table@.len() > 0,
        b < table@[table@.len() - 1]@.len(),
        forall|k: int|
            1 <= k < table@.len() ==> column_ok(
                rg@,
                table@[k - 1]@.len() as nat,
                column_view((#[trigger] table@[k])@),
            ),
    ensures
        path@.len() == table@.len(),
        path@[table@.len() - 1] == b,
        forall|k: int| 0 <= k < table@.len() ==> (#[trigger] path@[k]) < table@[k]@.len(),
        forall|k: int|
            1 <= k < table@.len() ==> path@[k - 1] == column_view(table@[k]@)[(
            #[trigger] path@[k]) as int].prev_index,
{
    let n = table.len() - 1;
    let mut path: Vec<usize> = Vec::with_capacity(n + 1);
    let mut i: usize = 0;
    while i <= n
        invariant
            i <= n + 1,
            n < usize::MAX,
            n + 1 == table@.len(),
            path@.len() == i,
        decreases n + 1 - i,
    {
        path.push(0);
        i = i + 1;
    }
    path[n] = b;
    let mut k: usize = n;
    while k > 0
        invariant
            k <= n,
            n + 1 == table@.len(),
            path@.len() == n + 1,
            path@[n as int] == b,
            forall|k: int|
                1 <= k < table@.len() ==> column_ok(
                    rg@,
                    table@[k - 1]@.len() as nat,
                    column_view((#[trigger] table@[k])@),
                ),
            forall|m: int| k <= m <= n ==> (#[trigger] path@[m]) < table@[m]@.len(),
            forall|m: int|
                k < m <= n ==> path@[m - 1] == column_view(table@[m]@)[(
                #[trigger] path@[m]) as int].prev_index,
        decreases k,
    {
        let at = path[k];
        let prev = table[k][at].prev_index;
        proof {
            let col = column_view(table@[k as int]@);
            assert(column_ok(rg@, table@[k - 1]@.len() as nat, col));
            assert(col[at as int].prev_index == prev);
        }
        path[k - 1] = prev;
        k = k - 1;
    }
    path
}

/// The output along the path to the entry at place `b` of the last column of
/// the table; see `path_output`.
pub fn emit_path(
    rg: &RangedGraph,
    table: &Vec<Vec<BacktrackingNode>>,
    input: &[A],
    b: usize,
) -> (out: Vec<A>)
    requires
        table_ok(rg@, input@, table@),
        b < table@[input@.len() as int]@.len(),
    ensures
        out@ == path_output(rg@, input@, input@.len() as nat, b as int),
        all_scalars(input@) ==> all_scalars(out@),
{
    let n = input.len();
    let path = trace_path(rg, table, b);
    let mut out: Vec<A> = Vec::new();
    let mut k: usize = 1;
    while k <= n
        invariant
            1 <= k <= n + 1,
            n == input@.len(),
            table_ok(rg@, input@, table@),
            path@.len() == n + 1,
            forall|k: int| 0 <= k < table@.len() ==> (#[trigger] path@[k]) < table@[k]@.len(),
            forall|k: int|
                1 <= k < table@.len() ==> path@[k - 1] == column_view(table@[k]@)[(
                #[trigger] path@[k]) as int].prev_index,
            out@ == path_output(rg@, input@, (k - 1) as nat, path@[k - 1] as int),
            all_scalars(input@) ==> all_scalars(out@),
        decreases n + 1 - k,
    {
        let at = path[k];
        let node = &table[k][at];
        proof {
            let col = column_view(table@[k as int]@);
            assert(col == column(rg@, input@, k as nat));
            assert(column_ok(rg@, table@[k - 1]@.len() as nat, col));
            assert(col[at as int] == node@);
            assert(path@[k - 1] == col[path@[k as int] as int].prev_index);
        }
        let edge = node.edge.unwrap();
        push_reflected(&mut out, edge.output(), input[k - 1]);
        k = k + 1;
    }
    out
}

/// The place of the entry of the column that is chosen at the end; see
/// `best_final`.
pub fn choose_final(rg: &RangedGraph, col: &Vec<BacktrackingNode>) -> (r: Option<usize>)
    requires
        forall|p: int| 0 <= p < col@.len() ==> (#[trigger] col@[p]).state < rg@.len(),
    ensures
        match best_final(rg@, column_view(col@), col@.len() as nat) {
            Some(b) => r == Some(b as usize) && 0 <= b < col@.len() && rg@.accepting[column_view(
                col@,
            )[b].state as int].is_some(),
            None => r.is_none(),
        },
{
    let ghost cv = column_view(col@);
    let mut best: Option<usize> = None;
    let mut best_weight: W = 0;
    let mut i: usize = 0;
    while i < col.len()
        invariant
            i <= col.len(),
            cv == column_view(col@),
            forall|p: int| 0 <= p < col@.len() ==> (#[trigger] col@[p]).state < rg@.len(),
            match best_final(rg@, cv, i as nat) {
                Some(b) => best == Some(b as usize) && 0 <= b < i
                    && rg@.accepting[cv[b].state as int].is_some() && best_weight
                    == rg@.accepting[cv[b].state as int].unwrap().weight,
                None => best.is_none(),
            },
        decreases col.len() - i,
    {
        let state = col[i].state;
        assert(cv[i as int].state == state);
        match rg.accepting_at(state) {
            None => {},
            Some(p) => {
                if best.is_none() || p.weight() > best_weight {
                    best = Some(i);
                    best_weight = p.weight();
                }
            },
        }
        i = i + 1;
    }
    best
}

impl RangedGraph {
    /// A scratchpad of the right size for this graph.
    pub fn make_state_to_index_table(&self) -> (r: StateToIndexTable)
        ensures
            r@.len() == self@.len(),
    {
        StateToIndexTable::new(self.len())
    }

    /// Makes the scratchpad large enough for this graph.
    pub fn ensure_length(&self, state_to_index: &mut StateToIndexTable)
        ensures
            final(state_to_index)@.len() >= self@.len(),
    {
        state_to_index.ensure_length(self.len())
    }

    /// The backtracking table for the input: one column for every prefix.
    pub fn build_table<'a>(&'a self, state_to_index: &mut StateToIndexTable, input: &[A]) -> (table:
        Vec<Vec<BacktrackingNode<'a>>>)
        requires
            old(state_to_index)@.len() >= self@.len(),
        ensures
            final(state_to_index)@.len() == old(state_to_index)@.len(),
            table_ok(self@, input@, table@),
            forall|k: int, p: int|
                0 <= k < table@.len() && 0 <= p < table@[k]@.len() ==> (
                #[trigger] table@[k]@[p]).state < self@.len(),
    {
        let init = nonsink_get(&self.init());
        let mut first: Vec<BacktrackingNode<'a>> = Vec::new();
        first.push(BacktrackingNode { prev_index: 0, state: init, edge: None });
        assert(column_view(first@) =~= column(self@, input@, 0));
        let mut table: Vec<Vec<BacktrackingNode<'a>>> = Vec::new();
        table.push(first);
        let mut k: usize = 0;
        while k < input.len()
            invariant
                k <= input.len(),
                state_to_index@.len() == old(state_to_index)@.len(),
                state_to_index@.len() >= self@.len(),
                table@.len() == k + 1,
                forall|c: int|
                    0 <= c < table@.len() ==> column_view((#[trigger] table@[c])@) == column(
                        self@,
                        input@,
                        c as nat,
                    ),
                forall|c: int|
                    1 <= c < table@.len() ==> column_ok(
                        self@,
                        table@[c - 1]@.len() as nat,
                        column_view((#[trigger] table@[c])@),
                    ),
                forall|c: int, p: int|
                    0 <= c < table@.len() && 0 <= p < table@[c]@.len() ==> (
                    #[trigger] table@[c]@[p]).state < self@.len(),
            decreases input.len() - k,
        {
            let ghost before = table@;
            let next = advance(self, state_to_index, &table[k], input[k]);
            proof {
                let nv = column_view(next@);
                assert forall|p: int| 0 <= p < next@.len() implies (#[trigger] next@[p]).state
                    < self@.len() by {
                    assert(nv[p].state < self@.len());
                }
            }
            table.push(next);
            k = k + 1;
        }
        table
    }

    /// What the graph gives for the input; see `evaluate`. The scratchpad must
    /// have room for every state; what it holds does not matter.
    pub fn evaluate_tabular(&self, state_to_index: &mut StateToIndexTable, input: &[A]) -> (r:
        Option<Vec<A>>)
        requires
            old(state_to_index)@.len() >= self@.len(),
        ensures
            final(state_to_index)@.len() == old(state_to_index)@.len(),
            match evaluate(self@, input@) {
                Some(out) => r.is_some() && r.unwrap()@ == out,
                None => r.is_none(),
            },
            all_scalars(input@) && r.is_some() ==> all_scalars(r.unwrap()@),
    {
        let table = self.build_table(state_to_index, input);
        let n = input.len();
        let last = &table[n];
        let b = match choose_final(self, last) {
            None => {
                return None;
            },
            Some(b) => b,
        };
        let mut out = emit_path(self, &table, input, b);
        let state = last[b].state;
        assert(column_view(last@)[b as int].state == state);
        match self.accepting_at(state) {
            Some(fin) => {
                push_stripped(&mut out, fin.output());
            },
            None => {},
        }
        Some(out)
    }

    /// What the graph gives for the characters of `input`, as a string.
    pub fn evaluate_to_string(&self, input: &str) -> (r: Option<String>)
        ensures
            match evaluate(self@, symbols_of(input@)) {
                Some(out) => r.is_some() && symbols_of(r.unwrap()@) == out,
                None => r.is_none(),
            },
    {
        match self.evaluate_to_int_seq(input) {
            Some(out) => {
                let text = out.as_str();
                Some(text.to_owned())
            },
            None => None,
        }
    }

    /// What the graph gives for the characters of `input`, as a string of
    /// symbols.
    pub fn evaluate_to_int_seq(&self, input: &str) -> (r: Option<IntSeq>)
        ensures
            match evaluate(self@, symbols_of(input@)) {
                Some(out) => r.is_some() && r.unwrap().symbols() == out,
                None => r.is_none(),
            },
    {
        let symbols = IntSeq::from(input).to_symbols();
        proof {
            assert forall|i: int| 0 <= i < symbols@.len() implies is_scalar(
                #[trigger] symbols@[i],
            ) by {
                vstd::utf8::char_is_scalar(input@[i]);
            }
        }
        let mut state_to_index = self.make_state_to_index_table();
        match self.evaluate_tabular(&mut state_to_index, symbols.as_slice()) {
            Some(out) => IntSeq::from_symbols(out.as_slice()),
            None => None,
        }
    }
}

} // verus!
