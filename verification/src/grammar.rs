use crate::lexer::{TokView, Token};
use vstd::prelude::*;

verus! {

/// The kinds of the tokens, without their places.
pub open spec fn kinds(tokens: Seq<Token>) -> Seq<TokView> {
    tokens.map_values(|t: Token| t.tok@)
}

/// Whether a name and `=` stand at the place `pos`.
pub open spec fn defines(k: Seq<TokView>, pos: int) -> bool {
    0 <= pos && pos + 1 < k.len() && k[pos] is Id && k[pos + 1] is Assign
}

/// Whether a statement begins at the place `pos`: a name and `=`, the same
/// behind `!!` or `@`, or the word `nonfunc`.
pub open spec fn statement_begins(k: Seq<TokView>, pos: int) -> bool {
    0 <= pos < k.len() && match k[pos] {
        TokView::Id(_) => defines(k, pos),
        TokView::Nonfunc => true,
        TokView::Copy => defines(k, pos + 1),
        TokView::At => defines(k, pos + 1),
        _ => false,
    }
}

/// Whether an expression can begin at the place `pos`, and no statement
/// begins there.
pub open spec fn item_begins(k: Seq<TokView>, pos: int) -> bool {
    0 <= pos < k.len() && !statement_begins(k, pos) && (k[pos] is Literal || k[pos] is Colon
        || k[pos] is Bracket || k[pos] is Codepoints || k[pos] is CodepointRange || k[pos] is Open
        || k[pos] is Copy || k[pos] is Id)
}

/// The place behind the sample that begins at `pos`: a string literal, alone
/// or followed by a colon and a string literal or the sign of the empty set.
pub open spec fn sample_end(k: Seq<TokView>, pos: int) -> Option<int> {
    if 0 <= pos < k.len() && k[pos] is Literal {
        if pos + 2 < k.len() && k[pos + 1] is Colon {
            if k[pos + 2] is Literal || k[pos + 2] is Nothing {
                Some(pos + 3)
            } else {
                None
            }
        } else {
            Some(pos + 1)
        }
    } else {
        None
    }
}

/// The place of the parenthesis that closes a list of samples of which the
/// last so far ends at `cur`: every further sample stands behind a comma.
pub open spec fn more_samples_end(k: Seq<TokView>, cur: int) -> Option<int>
    decreases k.len() - cur,
{
    if 0 <= cur < k.len() && k[cur] is Close {
        Some(cur)
    } else if 0 <= cur < k.len() && k[cur] is Comma {
        match sample_end(k, cur + 1) {
            Some(n) => if cur < n <= k.len() {
                more_samples_end(k, n)
            } else {
                None
            },
            None => None,
        }
    } else {
        None
    }
}

/// The place of the parenthesis that closes the list of samples that begins
/// at `pos`; the list may be empty.
pub open spec fn samples_end(k: Seq<TokView>, pos: int) -> Option<int> {
    if 0 <= pos < k.len() && k[pos] is Close {
        Some(pos)
    } else {
        match sample_end(k, pos) {
            Some(cur) => more_samples_end(k, cur),
            None => None,
        }
    }
}

/// The place behind the atom that begins at `pos`: a literal, an output, a
/// set of symbols, a name, a copy of a name, a call, or an expression in
/// parentheses.
pub open spec fn atom_end(k: Seq<TokView>, pos: int) -> Option<int>
    decreases k.len() - pos, 0nat,
{
    if pos < 0 || pos >= k.len() {
        None
    } else {
        match k[pos] {
            TokView::Literal(_) => Some(pos + 1),
            TokView::Bracket(_) => Some(pos + 1),
            TokView::Codepoints(_) => Some(pos + 1),
            TokView::CodepointRange(_) => Some(pos + 1),
            TokView::Colon => if pos + 1 < k.len() && k[pos + 1] is Literal {
                Some(pos + 2)
            } else {
                None
            },
            TokView::Copy => if pos + 1 < k.len() && k[pos + 1] is Id {
                Some(pos + 2)
            } else {
                None
            },
            TokView::Id(_) => if pos + 1 < k.len() && k[pos + 1] is Call {
                match samples_end(k, pos + 2) {
                    Some(n) => Some(n + 1),
                    None => None,
                }
            } else {
                Some(pos + 1)
            },
            TokView::Open => match union_end(k, pos + 1) {
                Some(n) => if 0 <= n < k.len() && k[n] is Close {
                    Some(n + 1)
                } else {
                    None
                },
                None => None,
            },
            _ => None,
        }
    }
}

/// The place behind the item that begins at `pos`: an atom with what may
/// stand behind it, a weight and then one of `*`, `+` and `?`.
pub open spec fn item_end(k: Seq<TokView>, pos: int) -> Option<int>
    decreases k.len() - pos, 1nat,
{
    if pos < 0 || pos >= k.len() {
        None
    } else {
        match atom_end(k, pos) {
            None => None,
            Some(behind) => {
                let cur = if 0 <= behind < k.len() && k[behind] is Number {
                    behind + 1
                } else {
                    behind
                };
                if 0 <= cur < k.len() && (k[cur] is Star || k[cur] is Plus || k[cur] is Question) {
                    Some(cur + 1)
                } else {
                    Some(cur)
                }
            },
        }
    }
}

/// The place behind the items of which the last so far ends at `cur`.
pub open spec fn more_items_end(k: Seq<TokView>, cur: int) -> Option<int>
    decreases k.len() - cur, 2nat,
{
    if item_begins(k, cur) {
        match item_end(k, cur) {
            Some(n) => if cur < n <= k.len() {
                more_items_end(k, n)
            } else {
                None
            },
            None => None,
        }
    } else {
        Some(cur)
    }
}

/// The place behind the concatenation that begins at `pos`: one item or
/// more, up to the place where no item begins.
pub open spec fn concat_end(k: Seq<TokView>, pos: int) -> Option<int>
    decreases k.len() - pos, 3nat,
{
    if pos < 0 || pos >= k.len() {
        None
    } else {
        match item_end(k, pos) {
            Some(behind) => if pos < behind <= k.len() {
                more_items_end(k, behind)
            } else {
                None
            },
            None => None,
        }
    }
}

/// The place behind the concatenation that begins at `pos` behind a weight
/// or without one.
pub open spec fn weighted_end(k: Seq<TokView>, pos: int) -> Option<int>
    decreases k.len() - pos, 4nat,
{
    if pos < 0 || pos >= k.len() {
        None
    } else if k[pos] is Number {
        concat_end(k, pos + 1)
    } else {
        concat_end(k, pos)
    }
}

/// The place behind the alternatives of which the last so far ends at
/// `cur`: every further one stands behind a bar.
pub open spec fn more_unions_end(k: Seq<TokView>, cur: int) -> Option<int>
    decreases k.len() - cur, 5nat,
{
    if 0 <= cur < k.len() && k[cur] is Bar {
        match weighted_end(k, cur + 1) {
            Some(n) => if cur < n <= k.len() {
                more_unions_end(k, n)
            } else {
                None
            },
            None => None,
        }
    } else {
        Some(cur)
    }
}

/// The place behind the expression that begins at `pos`: concatenations
/// with bars between them.
pub open spec fn union_end(k: Seq<TokView>, pos: int) -> Option<int>
    decreases k.len() - pos, 6nat,
{
    if pos < 0 || pos >= k.len() {
        None
    } else {
        match weighted_end(k, pos) {
            Some(behind) => if pos < behind <= k.len() {
                more_unions_end(k, behind)
            } else {
                None
            },
            None => None,
        }
    }
}

/// The place behind the stage of a pipeline that begins at `pos`: `@` and a
/// name, a pipeline expression between `@(` and `)`, or a transducer
/// expression.
pub open spec fn stage_end(k: Seq<TokView>, pos: int) -> Option<int>
    decreases k.len() - pos, 0nat,
{
    if pos < 0 || pos >= k.len() {
        None
    } else if k[pos] is At {
        if pos + 1 < k.len() && k[pos + 1] is Id {
            Some(pos + 2)
        } else if pos + 1 < k.len() && k[pos + 1] is Open {
            match pipe_end(k, pos + 2) {
                Some(n) => if 0 <= n < k.len() && k[n] is Close {
                    Some(n + 1)
                } else {
                    None
                },
                None => None,
            }
        } else {
            None
        }
    } else {
        union_end(k, pos)
    }
}

/// The place behind the stages of which the last so far ends at `cur`:
/// every further one stands behind a semicolon.
pub open spec fn more_stages_end(k: Seq<TokView>, cur: int) -> Option<int>
    decreases k.len() - cur, 1nat,
{
    if 0 <= cur < k.len() && k[cur] is Semicolon {
        match stage_end(k, cur + 1) {
            Some(n) => if cur < n <= k.len() {
                more_stages_end(k, n)
            } else {
                None
            },
            None => None,
        }
    } else {
        Some(cur)
    }
}

/// The place behind the chain of stages that begins at `pos`.
pub open spec fn stages_end(k: Seq<TokView>, pos: int) -> Option<int>
    decreases k.len() - pos, 2nat,
{
    if pos < 0 || pos >= k.len() {
        None
    } else {
        match stage_end(k, pos) {
            Some(behind) => if pos < behind <= k.len() {
                more_stages_end(k, behind)
            } else {
                None
            },
            None => None,
        }
    }
}

/// The place behind the chains of which the last so far ends at `cur`:
/// every further one stands behind `||`.
pub open spec fn more_pipes_end(k: Seq<TokView>, cur: int) -> Option<int>
    decreases k.len() - cur, 3nat,
{
    if 0 <= cur < k.len() && k[cur] is Alternative {
        match stages_end(k, cur + 1) {
            Some(n) => if cur < n <= k.len() {
                more_pipes_end(k, n)
            } else {
                None
            },
            None => None,
        }
    } else {
        Some(cur)
    }
}

/// The place behind the pipeline expression that begins at `pos`: chains of
/// stages with `||` between them.
pub open spec fn pipe_end(k: Seq<TokView>, pos: int) -> Option<int>
    decreases k.len() - pos, 4nat,
{
    if pos < 0 || pos >= k.len() {
        None
    } else {
        match stages_end(k, pos) {
            Some(behind) => if pos < behind <= k.len() {
                more_pipes_end(k, behind)
            } else {
                None
            },
            None => None,
        }
    }
}

/// The place of the name of the definition that begins at `pos`: behind
/// `nonfunc`, if it stands there, and behind `!!`, if it stands there; and
/// whether each of the two stands there.
pub open spec fn definition_name(k: Seq<TokView>, pos: int) -> (bool, bool, int) {
    let nonfunc = k[pos] is Nonfunc;
    let second = if nonfunc {
        pos + 1
    } else {
        pos
    };
    let always_copy = second < k.len() && k[second] is Copy;
    let third = if always_copy {
        second + 1
    } else {
        second
    };
    (nonfunc, always_copy, third)
}

/// The place behind the statement that begins at `pos`: `@`, a name, `=` and
/// a pipeline expression; or a name, `=` and a transducer expression, where
/// `!!` may stand before the name and `nonfunc` before both.
pub open spec fn statement_end(k: Seq<TokView>, pos: int) -> Option<int> {
    if pos < 0 || pos >= k.len() {
        None
    } else if k[pos] is At {
        if defines(k, pos + 1) {
            pipe_end(k, pos + 3)
        } else {
            None
        }
    } else if defines(k, definition_name(k, pos).2) {
        union_end(k, definition_name(k, pos).2 + 2)
    } else {
        None
    }
}

/// Whether the tokens from the place `pos` on are statements, one after the
/// other up to the end.
pub open spec fn statements_from(k: Seq<TokView>, pos: int) -> bool
    decreases k.len() - pos,
{
    if pos < 0 || pos >= k.len() {
        true
    } else {
        match statement_end(k, pos) {
            Some(n) => pos < n <= k.len() && statements_from(k, n),
            None => false,
        }
    }
}

} // verus!
