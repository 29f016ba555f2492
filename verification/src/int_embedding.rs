use crate::func_arg::Informant;
use crate::int_seq::{IntSeq, A};
use std::collections::HashMap;
use vstd::prelude::*;

verus! {

broadcast use vstd::std_specs::hash::group_hash_axioms;

/// The index of a symbol of the alphabet that an inference works on.
pub type I = usize;

/// A finite alphabet whose symbols are numbered from 0 on.
pub trait Alphabet {
    /// The symbols in the order of their indices.
    spec fn symbols(&self) -> Seq<A>;

    /// The index of a symbol of the alphabet.
    fn embed(&self, c: A) -> (r: I)
        requires
            self.symbols().contains(c),
        ensures
            r < self.symbols().len(),
            self.symbols()[r as int] == c,
    ;

    /// The symbol with the given index.
    fn retrieve(&self, idx: I) -> (r: A)
        requires
            idx < self.symbols().len(),
        ensures
            r == self.symbols()[idx as int],
    ;

    /// The number of symbols.
    fn len(&self) -> (r: usize)
        ensures
            r == self.symbols().len(),
    ;
}

/// The symbols of `s` without repetitions, in the order in which they first
/// occur.
pub open spec fn first_occurrences(s: Seq<A>) -> Seq<A>
    decreases s.len(),
{
    if s.len() == 0 {
        Seq::empty()
    } else {
        let before = first_occurrences(s.drop_last());
        if before.contains(s.last()) {
            before
        } else {
            before.push(s.last())
        }
    }
}

/// The symbols of the inputs of the first `n` samples, one input after the
/// other.
pub open spec fn informant_symbols(informant: Seq<(IntSeq, Option<IntSeq>)>, n: nat) -> Seq<A>
    decreases n,
{
    if n == 0 || n > informant.len() {
        Seq::empty()
    } else {
        informant_symbols(informant, (n - 1) as nat) + informant[n - 1].0.symbols()
    }
}

/// The symbols of the first `n` strings, one string after the other.
pub open spec fn strings_symbols(strings: Seq<IntSeq>, n: nat) -> Seq<A>
    decreases n,
{
    if n == 0 || n > strings.len() {
        Seq::empty()
    } else {
        strings_symbols(strings, (n - 1) as nat) + strings[n - 1].symbols()
    }
}

/// No symbol stands twice among the first occurrences.
pub proof fn lemma_first_occurrences_distinct(s: Seq<A>)
    ensures
        first_occurrences(s).no_duplicates(),
    decreases s.len(),
{
    if s.len() > 0 {
        lemma_first_occurrences_distinct(s.drop_last());
        let before = first_occurrences(s.drop_last());
        if !before.contains(s.last()) {
            let all = before.push(s.last());
            assert forall|i: int, j: int|
                0 <= i < all.len() && 0 <= j < all.len() && i != j implies all[i] != all[j] by {
                if i < before.len() && j < before.len() {
                    assert(before[i] != before[j]);
                } else if i < before.len() {
                    assert(before.contains(before[i]));
                } else {
                    assert(before.contains(before[j]));
                }
            }
        }
    }
}

/// The first occurrences of the symbols of a text are the symbols of the text.
pub proof fn lemma_first_occurrences(s: Seq<A>, c: A)
    ensures
        first_occurrences(s).contains(c) <==> s.contains(c),
    decreases s.len(),
{
    if s.len() > 0 {
        let front = s.drop_last();
        lemma_first_occurrences(front, c);
        let before = first_occurrences(front);
        let all = first_occurrences(s);
        if s.contains(c) {
            let i = choose|i: int| 0 <= i < s.len() && s[i] == c;
            if i < front.len() {
                assert(front[i] == c);
                assert(front.contains(c));
                let k = choose|k: int| 0 <= k < before.len() && before[k] == c;
                assert(all[k] == c);
            } else {
                if before.contains(c) {
                    let k = choose|k: int| 0 <= k < before.len() && before[k] == c;
                    assert(all[k] == c);
                } else {
                    assert(all[before.len() as int] == c);
                }
            }
        }
        if all.contains(c) {
            let k = choose|k: int| 0 <= k < all.len() && all[k] == c;
            if k < before.len() {
                assert(before[k] == c);
                assert(before.contains(c));
                let i = choose|i: int| 0 <= i < front.len() && front[i] == c;
                assert(s[i] == c);
            } else {
                assert(s[s.len() - 1] == c);
            }
        }
    }
}

/// The symbols of the inputs of the samples hold the symbols of each input.
pub proof fn lemma_informant_symbols(
    informant: Seq<(IntSeq, Option<IntSeq>)>,
    n: nat,
    i: int,
    k: int,
)
    requires
        n <= informant.len(),
        0 <= i < n,
        0 <= k < informant[i].0.symbols().len(),
    ensures
        informant_symbols(informant, n).contains(informant[i].0.symbols()[k]),
    decreases n,
{
    let all = informant_symbols(informant, n);
    let front = informant_symbols(informant, (n - 1) as nat);
    if i < n - 1 {
        lemma_informant_symbols(informant, (n - 1) as nat, i, k);
        let x = choose|x: int| 0 <= x < front.len() && front[x] == informant[i].0.symbols()[k];
        assert(all[x] == front[x]);
    } else {
        assert(all[front.len() + k] == informant[i].0.symbols()[k]);
    }
}

/// An alphabet that was gathered from samples. Its view is the list of its
/// symbols, in which no symbol stands twice.
#[derive(Debug)]
pub struct IntEmbedding {
    to_original: Vec<A>,
    to_embedding: HashMap<A, I>,
}

impl View for IntEmbedding {
    type V = Seq<A>;

    closed spec fn view(&self) -> Seq<A> {
        self.to_original@
    }
}

impl IntEmbedding {
    #[verifier::type_invariant]
    spec fn well_formed(&self) -> bool {
        &&& forall|i: int|
            0 <= i < self.to_original@.len() ==> self.to_embedding@.contains_key(
                #[trigger] self.to_original@[i],
            ) && self.to_embedding@[self.to_original@[i]] == i
        &&& forall|c: A| #[trigger]
            self.to_embedding@.contains_key(c) ==> self.to_embedding@[c] < self.to_original@.len()
                && self.to_original@[self.to_embedding@[c] as int] == c
    }

    /// The alphabet without symbols.
    pub fn empty() -> (r: Self)
        ensures
            r@ == Seq::<A>::empty(),
    {
        IntEmbedding { to_original: Vec::new(), to_embedding: HashMap::new() }
    }

    /// The alphabet of the given symbols, of which none may stand twice.
    pub fn new(chars: Vec<A>) -> (r: Self)
        requires
            chars@.no_duplicates(),
        ensures
            r@ == chars@,
    {
        let mut r = IntEmbedding::empty();
        let mut i: usize = 0;
        while i < chars.len()
            invariant
                i <= chars.len(),
                chars@.no_duplicates(),
                r@ == chars@.subrange(0, i as int),
            decreases chars.len() - i,
        {
            let ghost before = r@;
            let known = r.add(chars[i]);
            proof {
                if known {
                    let k = choose|k: int| 0 <= k < before.len() && before[k] == chars@[i as int];
                    assert(chars@[k] == chars@[i as int]);
                    assert(false);
                }
                assert(r@ =~= chars@.subrange(0, i + 1));
            }
            i = i + 1;
        }
        assert(chars@.subrange(0, i as int) =~= chars@);
        r
    }

    /// Takes the symbol into the alphabet, unless it is there, and says whether
    /// it was there.
    pub fn add(&mut self, c: A) -> (r: bool)
        ensures
            r == old(self)@.contains(c),
            final(self)@ == if r {
                old(self)@
            } else {
                old(self)@.push(c)
            },
    {
        proof {
            use_type_invariant(&*self);
        }
        if self.to_embedding.contains_key(&c) {
            proof {
                let i = self.to_embedding@[c] as int;
                assert(self.to_original@[i] == c);
            }
            true
        } else {
            proof {
                if self.to_original@.contains(c) {
                    let i = choose|i: int|
                        0 <= i < self.to_original@.len() && self.to_original@[i] == c;
                    assert(self.to_embedding@.contains_key(self.to_original@[i]));
                }
            }
            let idx = self.to_original.len();
            let ghost before_map = self.to_embedding@;
            let ghost before_list = self.to_original@;
            let mut taken = IntEmbedding::empty();
            core::mem::swap(self, &mut taken);
            let IntEmbedding { mut to_original, mut to_embedding } = taken;
            to_embedding.insert(c, idx);
            to_original.push(c);
            proof {
                assert forall|i: int| 0 <= i < to_original@.len() implies to_embedding@.contains_key(
                    #[trigger] to_original@[i],
                ) && to_embedding@[to_original@[i]] == i by {
                    if i < before_list.len() {
                        assert(before_map.contains_key(before_list[i]));
                    }
                }
                assert forall|x: A| #[trigger] to_embedding@.contains_key(x) implies to_embedding@[x]
                    < to_original@.len() && to_original@[to_embedding@[x] as int] == x by {
                    if x != c {
                        assert(before_map.contains_key(x));
                    }
                }
            }
            *self = IntEmbedding { to_original, to_embedding };
            false
        }
    }

    /// Takes the symbols of the string into the alphabet.
    pub fn add_all(&mut self, s: &IntSeq)
        requires
            exists|t: Seq<A>| old(self)@ == #[trigger] first_occurrences(t),
        ensures
            forall|t: Seq<A>|
                old(self)@ == first_occurrences(t) ==> final(self)@ == #[trigger] first_occurrences(
                    t + s.symbols(),
                ),
    {
        let symbols = s.to_symbols();
        let mut j: usize = 0;
        proof {
            assert forall|t: Seq<A>| old(self)@ == first_occurrences(t) implies self@
                == #[trigger] first_occurrences(t + symbols@.subrange(0, 0)) by {
                assert(t + symbols@.subrange(0, 0) =~= t);
            }
        }
        while j < symbols.len()
            invariant
                j <= symbols.len(),
                symbols@ == s.symbols(),
                forall|t: Seq<A>|
                    old(self)@ == first_occurrences(t) ==> self@ == #[trigger] first_occurrences(
                        t + symbols@.subrange(0, j as int),
                    ),
            decreases symbols.len() - j,
        {
            let ghost before = self@;
            let c = symbols[j];
            self.add(c);
            proof {
                assert forall|t: Seq<A>| old(self)@ == first_occurrences(t) implies self@
                    == #[trigger] first_occurrences(t + symbols@.subrange(0, j + 1)) by {
                    let longer = t + symbols@.subrange(0, j + 1);
                    assert(longer.drop_last() =~= t + symbols@.subrange(0, j as int));
                    assert(longer.last() == c);
                    assert(before == first_occurrences(t + symbols@.subrange(0, j as int)));
                }
            }
            j = j + 1;
        }
        proof {
            assert(symbols@.subrange(0, j as int) =~= symbols@);
        }
    }

    /// The alphabet of the symbols of the inputs of the samples, in the order
    /// in which they first occur.
    pub fn for_informant(informant: &Informant) -> (r: Self)
        ensures
            r@ == first_occurrences(informant_symbols(informant@, informant@.len())),
    {
        let mut r = IntEmbedding::empty();
        let mut i: usize = 0;
        while i < informant.len()
            invariant
                i <= informant.len(),
                r@ == first_occurrences(informant_symbols(informant@, i as nat)),
            decreases informant.len() - i,
        {
            r.add_all(&informant[i].0);
            i = i + 1;
        }
        r
    }

    /// The alphabet of the symbols of the strings, in the order in which they
    /// first occur.
    pub fn for_strings(strings: &[IntSeq]) -> (r: Self)
        ensures
            r@ == first_occurrences(strings_symbols(strings@, strings@.len())),
    {
        let mut r = IntEmbedding::empty();
        let mut i: usize = 0;
        while i < strings.len()
            invariant
                i <= strings.len(),
                r@ == first_occurrences(strings_symbols(strings@, i as nat)),
            decreases strings.len() - i,
        {
            r.add_all(&strings[i]);
            i = i + 1;
        }
        r
    }

    /// The index of the symbol, if it is one of the alphabet.
    pub fn try_embed(&self, c: A) -> (r: Option<I>)
        ensures
            r.is_some() <==> self@.contains(c),
            r.is_some() ==> r.unwrap() < self@.len() && self@[r.unwrap() as int] == c,
    {
        proof {
            use_type_invariant(self);
        }
        match self.to_embedding.get(&c) {
            Some(i) => Some(*i),
            None => {
                proof {
                    if self@.contains(c) {
                        let i = choose|i: int| 0 <= i < self@.len() && self@[i] == c;
                        assert(self.to_embedding@.contains_key(self.to_original@[i]));
                    }
                }
                None
            },
        }
    }

    /// No symbol stands twice in the alphabet. This call costs nothing and
    /// brings that fact to where it is needed.
    pub fn validity(&self)
        ensures
            self@.no_duplicates(),
    {
        proof {
            use_type_invariant(self);
            assert forall|i: int, j: int|
                0 <= i < self@.len() && 0 <= j < self@.len() && i != j implies self@[i]
                != self@[j] by {
                assert(self.to_embedding@[self.to_original@[i]] == i);
                assert(self.to_embedding@[self.to_original@[j]] == j);
            }
        }
    }
}

impl Alphabet for IntEmbedding {
    open spec fn symbols(&self) -> Seq<A> {
        self@
    }

    fn embed(&self, c: A) -> (r: I) {
        self.try_embed(c).unwrap()
    }

    fn retrieve(&self, idx: I) -> (r: A) {
        self.to_original[idx]
    }

    fn len(&self) -> (r: usize) {
        self.to_original.len()
    }
}

} // verus!
