use crate::int_seq::{A, REFLECT};
use vstd::prelude::*;

verus! {

/// The symbols above this one mark submatch groups: the first private-use
/// code point of plane 16.
pub const MID: A = 0x100000;

/// The markers of the groups that are open after the symbols `s`, innermost
/// last, or nothing if a marker breaks the protocol: a marker above the
/// innermost open one opens a group, one equal to it closes that group, and
/// one below it is not allowed.
pub open spec fn open_groups(s: Seq<A>) -> Option<Seq<A>>
    decreases s.len(),
{
    if s.len() == 0 {
        Some(Seq::empty())
    } else {
        match open_groups(s.drop_last()) {
            None => None,
            Some(stack) => {
                let x = s.last();
                if x > MID {
                    if stack.len() == 0 {
                        Some(seq![x])
                    } else if x == stack.last() {
                        Some(stack.drop_last())
                    } else if x > stack.last() {
                        Some(stack.push(x))
                    } else {
                        None
                    }
                } else {
                    Some(stack)
                }
            },
        }
    }
}

/// Whether the markers in the sequence follow the protocol; see `open_groups`.
pub fn validate_submatch_markers(seq: &[A]) -> (r: bool)
    ensures
        r == open_groups(seq@).is_some(),
{
    let mut submatches: Vec<A> = Vec::new();
    let mut i: usize = 0;
    assert(seq@.subrange(0, 0) =~= Seq::empty());
    while i < seq.len()
        invariant
            i <= seq.len(),
            open_groups(seq@.subrange(0, i as int)) == Some(submatches@),
        decreases seq.len() - i,
    {
        let symbol = seq[i];
        proof {
            assert(seq@.subrange(0, i + 1).drop_last() =~= seq@.subrange(0, i as int));
            assert(seq@.subrange(0, i + 1).last() == symbol);
        }
        if symbol > MID {
            let n = submatches.len();
            if n == 0 {
                submatches.push(symbol);
                assert(submatches@ =~= seq![symbol]);
            } else {
                let last = submatches[n - 1];
                if symbol == last {
                    let ghost before = submatches@;
                    submatches.pop();
                    assert(submatches@ =~= before.drop_last());
                } else if symbol > last {
                    submatches.push(symbol);
                } else {
                    proof {
                        lemma_open_groups_prefix(seq@, i + 1);
                    }
                    return false;
                }
            }
        }
        i = i + 1;
    }
    assert(seq@.subrange(0, i as int) =~= seq@);
    true
}

/// A sequence that follows the protocol does so in every prefix.
pub proof fn lemma_open_groups_prefix(s: Seq<A>, n: int)
    requires
        0 <= n <= s.len(),
        open_groups(s.subrange(0, n)).is_none(),
    ensures
        open_groups(s).is_none(),
    decreases s.len() - n,
{
    if n < s.len() {
        assert(s.subrange(0, n + 1).drop_last() =~= s.subrange(0, n));
        lemma_open_groups_prefix(s, n + 1);
    } else {
        assert(s.subrange(0, n) =~= s);
    }
}

/// What is done with the region that a group captured. What it gives must
/// depend on the group and the region alone, and `matched` says what that is:
/// the output that takes the place of the region, or nothing where the region
/// is rejected.
pub trait Matcher {
    spec fn matched(&self, group: A, region: Seq<A>) -> Option<Seq<A>>;

    /// Writes the output for the region into `out` and says whether the region
    /// was accepted.
    fn apply(&self, group: A, region: &Vec<A>, out: &mut Vec<A>) -> (r: bool)
        requires
            old(out)@.len() == 0,
        ensures
            r == self.matched(group, region@).is_some(),
            r ==> final(out)@ == self.matched(group, region@).unwrap(),
    ;
}

/// The matcher that accepts every region and leaves it as it is.
#[derive(Debug, Clone, Copy)]
pub struct KeepRegion {}

impl Matcher for KeepRegion {
    open spec fn matched(&self, group: A, region: Seq<A>) -> Option<Seq<A>> {
        Some(region)
    }

    fn apply(&self, group: A, region: &Vec<A>, out: &mut Vec<A>) -> (r: bool) {
        let mut i: usize = 0;
        while i < region.len()
            invariant
                i <= region.len(),
                out@ == region@.subrange(0, i as int),
            decreases region.len() - i,
        {
            out.push(region[i]);
            assert(out@ =~= region@.subrange(0, i + 1));
            i = i + 1;
        }
        assert(region@.subrange(0, i as int) =~= region@);
        true
    }
}

/// The groups that are open after the symbols `s`, outermost first, each with
/// its marker and with what it has captured so far, or nothing if the matcher
/// rejected a region. The outermost group is open from the start and has the
/// reflection marker for its marker. When a group is closed, what the matcher
/// gives for its region is added to the region of the group around it.
pub open spec fn frames_after<M: Matcher>(m: M, s: Seq<A>) -> Option<Seq<(A, Seq<A>)>>
    decreases s.len(),
{
    if s.len() == 0 {
        Some(seq![(REFLECT, Seq::empty())])
    } else {
        match frames_after(m, s.drop_last()) {
            None => None,
            Some(frames) => {
                let x = s.last();
                let top = frames.last();
                if x > MID {
                    if x == top.0 {
                        match m.matched(x, top.1) {
                            None => None,
                            Some(out) => {
                                let below = frames.drop_last();
                                let parent = below.last();
                                Some(below.drop_last().push((parent.0, parent.1 + out)))
                            },
                        }
                    } else {
                        Some(frames.push((x, Seq::empty())))
                    }
                } else {
                    Some(frames.drop_last().push((top.0, top.1.push(x))))
                }
            },
        }
    }
}

/// What becomes of a sequence whose groups are handed to the matcher, or
/// nothing if the matcher rejected a region: what the matcher gives for the
/// outermost group.
pub open spec fn submatched<M: Matcher>(m: M, s: Seq<A>) -> Option<Seq<A>> {
    match frames_after(m, s) {
        None => None,
        Some(frames) => m.matched(REFLECT, frames.last().1),
    }
}

/// A group that is open: its marker and what it has captured so far.
pub struct Submatch {
    pub group_index: A,
    pub matched_region: Vec<A>,
}

/// What a stack of open groups is.
pub open spec fn frames_view(stack: Seq<Submatch>) -> Seq<(A, Seq<A>)> {
    stack.map_values(|f: Submatch| (f.group_index, f.matched_region@))
}

/// The markers of a stack of open groups but for the outermost.
pub open spec fn frame_markers(frames: Seq<(A, Seq<A>)>) -> Seq<A> {
    frames.subrange(1, frames.len() as int).map_values(|f: (A, Seq<A>)| f.0)
}

/// Hands every group of `input` to the matcher, innermost first, and puts what
/// the matcher gives in the place of the group; see `submatched`. Every group
/// of `input` must be closed.
pub fn submatch<M: Matcher>(input: &[A], out: &mut Vec<A>, matcher: &M) -> (r: bool)
    requires
        open_groups(input@) == Some(Seq::<A>::empty()),
        old(out)@.len() == 0,
    ensures
        r == submatched(*matcher, input@).is_some(),
        r ==> final(out)@ == submatched(*matcher, input@).unwrap(),
{
    let mut stack: Vec<Submatch> = Vec::new();
    stack.push(Submatch { group_index: REFLECT, matched_region: Vec::new() });
    let mut i: usize = 0;
    proof {
        assert(input@.subrange(0, 0) =~= Seq::empty());
        assert(frames_view(stack@) =~= seq![(REFLECT, Seq::empty())]);
        assert(frame_markers(frames_view(stack@)) =~= Seq::empty());
    }
    while i < input.len()
        invariant
            i <= input.len(),
            out@.len() == 0,
            stack@.len() >= 1,
            stack@[0].group_index == REFLECT,
            open_groups(input@) == Some(Seq::<A>::empty()),
            frames_after(*matcher, input@.subrange(0, i as int)) == Some(frames_view(stack@)),
            open_groups(input@.subrange(0, i as int)) == Some(
                frame_markers(frames_view(stack@)),
            ),
        decreases input.len() - i,
    {
        let symbol = input[i];
        let ghost frames = frames_view(stack@);
        let ghost markers = frame_markers(frames);
        proof {
            assert(input@.subrange(0, i + 1).drop_last() =~= input@.subrange(0, i as int));
            assert(input@.subrange(0, i + 1).last() == symbol);
            if open_groups(input@.subrange(0, i + 1)).is_none() {
                lemma_open_groups_prefix(input@, i + 1);
            }
            if frames.len() > 1 {
                assert(markers.last() == frames.last().0);
            }
        }
        let n = stack.len();
        let last = stack[n - 1].group_index;
        if symbol > MID {
            if symbol == last {
                let popped = stack.pop().unwrap();
                let accepted = matcher.apply(symbol, &popped.matched_region, out);
                if !accepted {
                    proof {
                        lemma_frames_prefix(*matcher, input@, i + 1);
                    }
                    return false;
                }
                let m = stack.len();
                assert(m >= 1) by {
                    if m == 0 {
                        assert(frames[0].0 == REFLECT);
                    }
                };
                let ghost added = out@;
                let ghost parent = stack@[m - 1].matched_region@;
                stack[m - 1].matched_region.append(out);
                proof {
                    let below = frames.drop_last();
                    assert(frames_view(stack@) =~= below.drop_last().push(
                        (below.last().0, below.last().1 + added),
                    ));
                    assert(frame_markers(frames_view(stack@)) =~= markers.drop_last());
                }
            } else {
                stack.push(Submatch { group_index: symbol, matched_region: Vec::new() });
                proof {
                    assert(frames_view(stack@) =~= frames.push((symbol, Seq::empty())));
                    assert(frame_markers(frames_view(stack@)) =~= markers.push(symbol));
                    if markers.len() == 0 {
                        assert(markers.push(symbol) =~= seq![symbol]);
                    }
                }
            }
        } else {
            stack[n - 1].matched_region.push(symbol);
            proof {
                assert(frames_view(stack@) =~= frames.drop_last().push(
                    (frames.last().0, frames.last().1.push(symbol)),
                ));
                assert(frame_markers(frames_view(stack@)) =~= markers);
            }
        }
        i = i + 1;
    }
    proof {
        assert(input@.subrange(0, i as int) =~= input@);
    }
    let last = stack.pop().unwrap();
    matcher.apply(REFLECT, &last.matched_region, out)
}

/// Once the matcher has rejected a region, the whole sequence is rejected.
pub proof fn lemma_frames_prefix<M: Matcher>(m: M, s: Seq<A>, n: int)
    requires
        0 <= n <= s.len(),
        frames_after(m, s.subrange(0, n)).is_none(),
    ensures
        frames_after(m, s).is_none(),
    decreases s.len() - n,
{
    if n < s.len() {
        assert(s.subrange(0, n + 1).drop_last() =~= s.subrange(0, n));
        lemma_frames_prefix(m, s, n + 1);
    } else {
        assert(s.subrange(0, n) =~= s);
    }
}

} // verus!
