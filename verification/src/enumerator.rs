//! The enumerator: an odometer over the alphabet that hands out one string
//! per call and grows by one position when a length is used up.

use crate::error::BruteError;
use crate::order::{
    enumeration, following, is_last, lemma_nth_of_rank, lemma_rank_of_following, rank, render,
    total,
};
use crate::radix::{
    in_range, lemma_successor_carries, lemma_successor_in_range, lemma_successor_of_saturated,
    lemma_value_zeros, saturated, successor, zeros,
};
use vstd::prelude::*;

verus! {

/// Generator of every string over `charset` whose length lies between `min`
/// and `max`, shorter strings first.
pub struct Brute {
    charset: Vec<char>,
    state: Vec<usize>,
    min: usize,
    max: usize,
    finished: bool,
}

impl Brute {
    /// The alphabet, in the order given at construction.
    pub closed spec fn charset(&self) -> Seq<char> {
        self.charset@
    }

    /// The position vector: one index into the alphabet for each character
    /// of the string that the next call hands out.
    pub closed spec fn positions(&self) -> Seq<int> {
        self.state@.map_values(|d: usize| d as int)
    }

    /// The shortest length that is enumerated.
    pub closed spec fn min(&self) -> nat {
        self.min as nat
    }

    /// The longest length that is enumerated.
    pub closed spec fn max(&self) -> nat {
        self.max as nat
    }

    /// Whether the last string has been handed out.
    pub closed spec fn finished(&self) -> bool {
        self.finished
    }

    /// How many strings there are to hand out, from the first call to the
    /// last.
    pub open spec fn total(&self) -> int {
        total(self.charset().len() as int, self.min(), self.max())
    }

    /// How many strings have been handed out so far.
    pub open spec fn produced(&self) -> int {
        if self.finished() {
            self.total()
        } else {
            rank(self.positions(), self.charset().len() as int, self.min())
        }
    }

    /// The invariant of an enumerator. Once finished, the position vector
    /// rests at the zeros that the last rollover left.
    pub open spec fn wf(&self) -> bool {
        &&& 1 <= self.min() <= self.max()
        &&& self.charset().len() >= 1
        &&& self.min() <= self.positions().len() <= self.max()
        &&& in_range(self.positions(), self.charset().len() as int)
        &&& self.finished() ==> self.positions() == zeros(self.max())
    }

    /// The count of strings handed out never passes the total, and reaches it
    /// exactly when the enumerator is finished.
    pub proof fn lemma_progress(&self)
        requires
            self.wf(),
        ensures
            0 <= self.produced() <= self.total(),
            self.finished() <==> self.produced() == self.total(),
    {
        lemma_nth_of_rank(
            self.positions(),
            self.charset().len() as int,
            self.min(),
            self.max(),
        );
    }

    /// Builds an enumerator that starts at the first string of length `min`.
    /// The checks are made in this order: `min` is zero, `max` is below
    /// `min`, `charset` is empty.
    pub fn new(min: usize, max: usize, charset: Vec<char>) -> (result: Result<Brute, BruteError>)
        ensures
            min == 0 ==> result == Err::<Brute, BruteError>(BruteError::InvalidMin),
            min != 0 && max < min ==> result == Err::<Brute, BruteError>(BruteError::InvalidMax),
            min != 0 && max >= min && charset@.len() == 0 ==> result == Err::<Brute, BruteError>(
                BruteError::InvalidCharset,
            ),
            min != 0 && max >= min && charset@.len() != 0 ==> {
                &&& result is Ok
                &&& result->Ok_0.wf()
                &&& result->Ok_0.charset() == charset@
                &&& result->Ok_0.min() == min
                &&& result->Ok_0.max() == max
                &&& result->Ok_0.positions() == zeros(min as nat)
                &&& !result->Ok_0.finished()
                &&& result->Ok_0.produced() == 0
            },
    {
        if min == 0 {
            return Err(BruteError::InvalidMin);
        }
        if max < min {
            return Err(BruteError::InvalidMax);
        }
        if charset.len() == 0 {
            return Err(BruteError::InvalidCharset);
        }
        let state = vec![0usize; min];
        let brute = Brute { charset, state, min, max, finished: false };
        proof {
            assert(brute.positions() =~= zeros(min as nat));
            lemma_value_zeros(min as nat, charset@.len() as int);
        }
        Ok(brute)
    }

    /// The string that the position vector spells.
    fn current(&self) -> (s: String)
        requires
            self.wf(),
        ensures
            s@ == render(self.charset(), self.positions()),
    {
        let mut s = String::new();
        let mut i: usize = 0;
        while i < self.state.len()
            invariant
                self.wf(),
                i <= self.state.len(),
                s@ == render(self.charset(), self.positions().take(i as int)),
            decreases self.state.len() - i,
        {
            assert(0 <= self.positions()[i as int] < self.charset().len());
            let ch = self.charset[self.state[i]];
            s.push(ch);
            i += 1;
            assert(s@ =~= render(self.charset(), self.positions().take(i as int)));
        }
        assert(self.positions().take(i as int) =~= self.positions());
        s
    }

    /// Hands out the next string, or `None` once every string has been
    /// handed out. The string is the one that the position vector spelled
    /// on entry; the vector then moves on by one odometer step, grows by one
    /// position when the step rolls over below the longest length, and the
    /// enumerator is finished when it rolls over at the longest length.
    pub fn next(&mut self) -> (result: Option<String>)
        requires
            old(self).wf(),
        ensures
            final(self).wf(),
            final(self).charset() == old(self).charset(),
            final(self).min() == old(self).min(),
            final(self).max() == old(self).max(),
            result is Some <==> old(self).produced() < old(self).total(),
            result is None <==> old(self).finished(),
            result is None ==> *final(self) == *old(self),
            !old(self).finished() ==> {
                &&& result is Some
                &&& 0 <= old(self).produced() < old(self).total()
                &&& final(self).produced() == old(self).produced() + 1
                &&& result->Some_0@ == enumeration(
                    old(self).charset(),
                    old(self).min(),
                    old(self).max(),
                )[old(self).produced()]
                &&& result->Some_0@ == render(old(self).charset(), old(self).positions())
                &&& old(self).min() <= result->Some_0@.len() <= old(self).max()
                &&& result->Some_0@.len() <= final(self).positions().len()
                &&& final(self).positions() == following(
                    old(self).positions(),
                    old(self).charset().len() as int,
                    old(self).max(),
                )
                &&& final(self).finished() == is_last(
                    old(self).positions(),
                    old(self).charset().len() as int,
                    old(self).max(),
                )
            },
    {
        if self.finished {
            return None;
        }
        let s = self.current();
        let ghost radix = self.charset().len() as int;
        let ghost before = self.positions();
        let top = self.charset.len() - 1;
        let mut i = self.state.len();
        let mut carry = true;
        while carry && i > 0
            invariant
                self.charset == old(self).charset,
                self.min == old(self).min,
                self.max == old(self).max,
                self.finished == old(self).finished,
                self.state.len() == before.len(),
                radix == self.charset().len(),
                top == radix - 1,
                before == old(self).positions(),
                in_range(before, radix),
                i <= before.len(),
                carry ==> self.positions() == before.subrange(0, i as int) + zeros(
                    (before.len() - i) as nat,
                ),
                carry ==> forall|j: int| i <= j < before.len() ==> #[trigger] before[j] == radix - 1,
                !carry ==> !saturated(before, radix) && self.positions() == successor(
                    before,
                    radix,
                ),
            decreases i,
        {
            i -= 1;
            let ghost front = before.subrange(0, i + 1);
            proof {
                lemma_successor_carries(before, radix, i + 1);
                assert(front.drop_last() =~= before.subrange(0, i as int));
                assert(self.positions()[i as int] == before[i as int]);
            }
            let ghost scanned = self.positions();
            if self.state[i] == top {
                self.state[i] = 0;
                assert(self.positions() =~= scanned.update(i as int, 0));
                assert(self.positions() =~= before.subrange(0, i as int) + zeros(
                    (before.len() - i) as nat,
                ));
            } else {
                self.state[i] = self.state[i] + 1;
                carry = false;
                assert(self.positions() =~= scanned.update(i as int, before[i as int] + 1));
                assert(self.positions() =~= front.drop_last().push(front.last() + 1) + zeros(
                    (before.len() - (i + 1)) as nat,
                ));
            }
        }
        proof {
            lemma_successor_in_range(before, radix);
            lemma_nth_of_rank(before, radix, self.min(), self.max());
            lemma_rank_of_following(before, radix, self.min(), self.max());
            if carry {
                assert(saturated(before, radix));
                lemma_successor_of_saturated(before, radix);
                assert(self.positions() =~= zeros(before.len()));
            }
        }
        if carry {
            if self.state.len() < self.max {
                let ghost rolled = self.positions();
                self.state.push(0);
                assert(self.positions() =~= rolled.push(0));
                assert(self.positions() =~= zeros(before.len() + 1));
            } else {
                self.finished = true;
            }
        }
        Some(s)
    }
}

} // verus!
