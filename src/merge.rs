//! The byte-pair merge engine.
//!
//! A word starts as a list of symbol units. While some adjacent pair of
//! units is a vocabulary key, the pair of lowest rank (the leftmost one on a
//! tie) becomes one unit. Each merge removes exactly one unit, so a word of
//! `n` units takes at most `n - 1` merges.
use vstd::prelude::*;
use crate::vocab::{Vocabulary, forward};

verus! {

/// The rank of the pair of units `i` and `i + 1`.
pub open spec fn pair_rank(v: Seq<(Seq<char>, u32)>, units: Seq<Seq<u8>>, i: int) -> Option<u32> {
    forward(v, units[i] + units[i + 1])
}

/// Pair `i` has a rank, no pair has a lower one, and no pair before it has
/// the same one.
pub open spec fn is_best(v: Seq<(Seq<char>, u32)>, units: Seq<Seq<u8>>, i: int) -> bool {
    &&& 0 <= i < units.len() - 1
    &&& pair_rank(v, units, i) is Some
    &&& forall|j: int|
        0 <= j < units.len() - 1 && #[trigger] pair_rank(v, units, j) is Some ==> pair_rank(
            v,
            units,
            i,
        )->0 <= pair_rank(v, units, j)->0
    &&& forall|j: int|
        0 <= j < i && #[trigger] pair_rank(v, units, j) is Some ==> pair_rank(v, units, j)->0
            != pair_rank(v, units, i)->0
}

/// The pair that merges next, if any.
pub open spec fn best_pair(v: Seq<(Seq<char>, u32)>, units: Seq<Seq<u8>>) -> Option<int> {
    if exists|i: int| is_best(v, units, i) {
        Some(choose|i: int| is_best(v, units, i))
    } else {
        None
    }
}

/// Units `i` and `i + 1` joined into one.
pub open spec fn merge_at(units: Seq<Seq<u8>>, i: int) -> Seq<Seq<u8>> {
    units.subrange(0, i).push(units[i] + units[i + 1]) + units.subrange(i + 2, units.len() as int)
}

/// The units that remain when no pair merges any more.
pub open spec fn bpe(v: Seq<(Seq<char>, u32)>, units: Seq<Seq<u8>>) -> Seq<Seq<u8>>
    decreases units.len(),
{
    if units.len() <= 1 {
        units
    } else {
        match best_pair(v, units) {
            Some(i) => if 0 <= i < units.len() - 1 {
                bpe(v, merge_at(units, i))
            } else {
                units
            },
            None => units,
        }
    }
}

/// How many merges `bpe` makes.
pub open spec fn merge_count(v: Seq<(Seq<char>, u32)>, units: Seq<Seq<u8>>) -> nat
    decreases units.len(),
{
    if units.len() <= 1 {
        0
    } else {
        match best_pair(v, units) {
            Some(i) => if 0 <= i < units.len() - 1 {
                1 + merge_count(v, merge_at(units, i))
            } else {
                0
            },
            None => 0,
        }
    }
}

proof fn lemma_best_unique(v: Seq<(Seq<char>, u32)>, units: Seq<Seq<u8>>, i: int, j: int)
    requires
        is_best(v, units, i),
        is_best(v, units, j),
    ensures
        i == j,
{
    if i < j {
        assert(pair_rank(v, units, i) is Some);
    } else if j < i {
        assert(pair_rank(v, units, j) is Some);
    }
}

/// A merge keeps the bytes of the word and removes exactly one unit.
pub proof fn lemma_merge_at(units: Seq<Seq<u8>>, i: int)
    requires
        0 <= i < units.len() - 1,
    ensures
        merge_at(units, i).len() == units.len() - 1,
        merge_at(units, i).flatten() == units.flatten(),
{
    let a = units.subrange(0, i);
    let b = units.subrange(i + 2, units.len() as int);
    assert(units =~= a + seq![units[i], units[i + 1]] + b);
    vstd::seq_lib::lemma_flatten_concat(a + seq![units[i], units[i + 1]], b);
    vstd::seq_lib::lemma_flatten_concat(a, seq![units[i], units[i + 1]]);
    vstd::seq_lib::lemma_flatten_concat(a.push(units[i] + units[i + 1]), b);
    a.lemma_flatten_push(units[i] + units[i + 1]);
    let two = seq![units[i], units[i + 1]];
    assert(two.drop_first() =~= seq![units[i + 1]]);
    seq![units[i + 1]].lemma_flatten_singleton();
    assert(two.flatten() =~= units[i] + units[i + 1]);
}

/// Merging never gains units and keeps the bytes of the word; it makes at
/// most `n - 1` merges on `n` units, each removing exactly one.
pub proof fn lemma_bpe_monotone(v: Seq<(Seq<char>, u32)>, units: Seq<Seq<u8>>)
    ensures
        bpe(v, units).len() + merge_count(v, units) == units.len(),
        units.len() >= 1 ==> merge_count(v, units) <= units.len() - 1,
        bpe(v, units).flatten() == units.flatten(),
    decreases units.len(),
{
    if units.len() > 1 {
        match best_pair(v, units) {
            Some(i) => {
                if 0 <= i < units.len() - 1 {
                    lemma_merge_at(units, i);
                    lemma_bpe_monotone(v, merge_at(units, i));
                }
            },
            None => {},
        }
    }
}

/// What a step did.
#[derive(Debug, Clone, Copy, PartialEq, Eq, Structural)]
pub enum StepResult {
    /// One pair merged.
    Continue,
    /// Nothing merges any more.
    Done,
}

/// The units of one word together with the rank of every adjacent pair.
pub struct BytePairEncoder {
    units: Vec<Vec<u8>>,
    ranks: Vec<Option<u32>>,
}

impl View for BytePairEncoder {
    type V = Seq<Seq<u8>>;

    closed spec fn view(&self) -> Seq<Seq<u8>> {
        self.units.deep_view()
    }
}

/// The bytes of `a` followed by those of `b`.
pub fn concat_bytes(a: &Vec<u8>, b: &Vec<u8>) -> (r: Vec<u8>)
    ensures
        r@ == a@ + b@,
{
    let mut r: Vec<u8> = Vec::new();
    let mut i: usize = 0;
    while i < a.len()
        invariant
            i <= a@.len(),
            r@ == a@.subrange(0, i as int),
        decreases a@.len() - i,
    {
        r.push(a[i]);
        i = i + 1;
        assert(r@ =~= a@.subrange(0, i as int));
    }
    let mut j: usize = 0;
    while j < b.len()
        invariant
            i == a@.len(),
            j <= b@.len(),
            r@ == a@ + b@.subrange(0, j as int),
        decreases b@.len() - j,
    {
        r.push(b[j]);
        j = j + 1;
        assert(r@ =~= a@ + b@.subrange(0, j as int));
    }
    assert(b@.subrange(0, j as int) =~= b@);
    r
}

impl BytePairEncoder {
    /// The cached ranks are those of the current pairs.
    pub closed spec fn wf(&self, v: Seq<(Seq<char>, u32)>) -> bool {
        &&& (self.units@.len() == 0 ==> self.ranks@.len() == 0)
        &&& (self.units@.len() > 0 ==> self.ranks@.len() + 1 == self.units@.len())
        &&& forall|k: int|
            0 <= k < self.ranks@.len() ==> #[trigger] self.ranks@[k] == pair_rank(v, self@, k)
    }

    /// The rank of the pair at `k`, looked up afresh.
    fn rank_at(&self, vocab: &Vocabulary, k: usize) -> (r: Option<u32>)
        requires
            k + 1 < self.units@.len(),
        ensures
            r == pair_rank(vocab@, self@, k as int),
    {
        let n = self.units.len();
        let joined = concat_bytes(&self.units[k], &self.units[k + 1]);
        proof {
            assert(self@[k as int] == self.units@[k as int]@);
            assert(self@[k + 1] == self.units@[k + 1]@);
        }
        vocab.lookup_forward(joined.as_slice())
    }

    /// A state whose units are `units`, with every pair ranked.
    pub fn new(units: Vec<Vec<u8>>, vocab: &Vocabulary) -> (r: BytePairEncoder)
        ensures
            r.wf(vocab@),
            r@ == units.deep_view(),
    {
        let mut state = BytePairEncoder { units, ranks: Vec::new() };
        let mut k: usize = 0;
        let n = state.units.len();
        if n > 0 {
            while k < n - 1
                invariant
                    n == state.units@.len(),
                    state.units@.len() > 0,
                    k + 1 <= state.units@.len(),
                    state.ranks@.len() == k,
                    state@ == units.deep_view(),
                    forall|m: int| 0 <= m < k ==> #[trigger] state.ranks@[m] == pair_rank(vocab@, state@, m),
                decreases state.units@.len() - k,
            {
                let rank = state.rank_at(vocab, k);
                state.ranks.push(rank);
                k = k + 1;
            }
        }
        state
    }

    /// The units as they stand.
    pub fn units(&self) -> (r: &Vec<Vec<u8>>)
        ensures
            r.deep_view() == self@,
    {
        &self.units
    }

    /// Merges the leftmost pair of lowest rank, if any pair has a rank.
    pub fn step(&mut self, vocab: &Vocabulary) -> (r: StepResult)
        requires
            old(self).wf(vocab@),
        ensures
            final(self).wf(vocab@),
            bpe(vocab@, final(self)@) == bpe(vocab@, old(self)@),
            r == StepResult::Continue ==> old(self)@.len() > 1 && best_pair(vocab@, old(self)@) is Some
                && final(self)@ == merge_at(old(self)@, best_pair(vocab@, old(self)@)->0)
                && final(self)@.len() == old(self)@.len() - 1,
            r == StepResult::Done ==> final(self)@ == old(self)@ && bpe(vocab@, old(self)@)
                == old(self)@,
    {
        let ghost v = vocab@;
        let ghost before = self@;
        if self.units.len() <= 1 {
            return StepResult::Done;
        }
        // find the leftmost pair of lowest rank
        let mut best: Option<(usize, u32)> = None;
        let mut k: usize = 0;
        while k < self.ranks.len()
            invariant
                self.wf(v),
                self@ == before,
                self.units@.len() > 1,
                k <= self.ranks@.len(),
                match best {
                    None => forall|j: int| 0 <= j < k ==> #[trigger] pair_rank(v, before, j) is None,
                    Some((i, r)) => i < k && pair_rank(v, before, i as int) == Some(r)
                        && (forall|j: int| 0 <= j < k && #[trigger] pair_rank(v, before, j) is Some
                        ==> r <= pair_rank(v, before, j)->0)
                        && (forall|j: int| 0 <= j < i && #[trigger] pair_rank(v, before, j) is Some
                        ==> pair_rank(v, before, j)->0 != r),
                },
            decreases self.ranks@.len() - k,
        {
            match self.ranks[k] {
                Some(r) => {
                    match best {
                        None => {
                            best = Some((k, r));
                        },
                        Some((_, b)) => {
                            if r < b {
                                best = Some((k, r));
                            }
                        },
                    }
                },
                None => {},
            }
            k = k + 1;
        }
        match best {
            None => {
                proof {
                    if exists|i: int| is_best(v, before, i) {
                        let i = choose|i: int| is_best(v, before, i);
                        assert(pair_rank(v, before, i) is Some);
                    }
                }
                StepResult::Done
            },
            Some((i, _)) => {
                proof {
                    assert(is_best(v, before, i as int));
                    let c = choose|c: int| is_best(v, before, c);
                    lemma_best_unique(v, before, i as int, c);
                }
                self.merge_pair(vocab, i);
                StepResult::Continue
            },
        }
    }

    /// Joins units `i` and `i + 1` and ranks the two pairs that changed.
    fn merge_pair(&mut self, vocab: &Vocabulary, i: usize)
        requires
            old(self).wf(vocab@),
            i + 1 < old(self).units@.len(),
            best_pair(vocab@, old(self)@) == Some(i as int),
        ensures
            final(self).wf(vocab@),
            final(self)@ == merge_at(old(self)@, i as int),
            final(self)@.len() == old(self)@.len() - 1,
            bpe(vocab@, final(self)@) == bpe(vocab@, old(self)@),
    {
        let ghost v = vocab@;
        let ghost before = self@;
        let ghost u0 = self.units@;
        let n = self.units.len();
        let joined = concat_bytes(&self.units[i], &self.units[i + 1]);
        let ghost j = joined@;
        self.units.set(i, joined);
        self.units.remove(i + 1);
        self.ranks.remove(i);
        proof {
            assert(before[i as int] == u0[i as int]@);
            assert(before[i + 1] == u0[i + 1]@);
            assert(self@.len() == merge_at(before, i as int).len());
            assert forall|k: int| 0 <= k < self@.len() implies #[trigger] self@[k] == merge_at(
                before,
                i as int,
            )[k] by {
                if k < i {
                    assert(self.units@[k] == u0[k]);
                } else if k == i {
                    assert(self.units@[k]@ == j);
                } else {
                    assert(self.units@[k] == u0[k + 1]);
                }
            }
            assert(self@ =~= merge_at(before, i as int));
            lemma_merge_at(before, i as int);
            assert forall|k: int| 0 <= k < self.ranks@.len() && k != i - 1 && k != i implies
                #[trigger] self.ranks@[k] == pair_rank(v, self@, k) by {
                if k < i - 1 {
                    assert(self@[k] == before[k]);
                    assert(self@[k + 1] == before[k + 1]);
                } else {
                    assert(self.ranks@[k] == old(self).ranks@[k + 1]);
                    assert(self@[k] == before[k + 1]);
                    assert(self@[k + 1] == before[k + 2]);
                }
            }
        }
        if i > 0 {
            let rank = self.rank_at(vocab, i - 1);
            self.ranks.set(i - 1, rank);
        }
        if i + 1 < self.units.len() {
            let rank = self.rank_at(vocab, i);
            self.ranks.set(i, rank);
        }
        proof {
            assert(forall|k: int| 0 <= k < self.ranks@.len() ==> #[trigger] self.ranks@[k] == pair_rank(v, self@, k));
        }
    }

    /// Merges until nothing merges; the units left are `bpe` of the start.
    pub fn run(&mut self, vocab: &Vocabulary)
        requires
            old(self).wf(vocab@),
        ensures
            final(self).wf(vocab@),
            final(self)@ == bpe(vocab@, old(self)@),
    {
        loop
            invariant
                self.wf(vocab@),
                bpe(vocab@, self@) == bpe(vocab@, old(self)@),
            ensures
                self.wf(vocab@),
                self@ == bpe(vocab@, old(self)@),
            decreases self@.len(),
        {
            let r = self.step(vocab);
            match r {
                StepResult::Done => break,
                StepResult::Continue => {},
            }
        }
    }
}

/// The units that `units` merge into under `vocab`.
pub fn merge(units: Vec<Vec<u8>>, vocab: &Vocabulary) -> (r: Vec<Vec<u8>>)
    ensures
        r.deep_view() == bpe(vocab@, units.deep_view()),
{
    let mut state = BytePairEncoder::new(units, vocab);
    state.run(vocab);
    state.units
}

} // verus!
