//! The order of the enumeration: shorter position vectors first, vectors of
//! one length by the number they stand for.

use crate::radix::{
    digits_of, in_range, lemma_digits_of_value, lemma_successor_in_range, lemma_successor_value,
    lemma_value_bounds, lemma_value_of_digits, lemma_value_saturated, lemma_value_zeros,
    saturated, successor, value, zeros,
};
use vstd::arithmetic::power::{lemma_pow_positive, pow};
use vstd::prelude::*;

verus! {

/// The string that a position vector spells: position `i` holds the symbol
/// `charset[positions[i]]`.
pub open spec fn render(charset: Seq<char>, positions: Seq<int>) -> Seq<char> {
    Seq::new(positions.len(), |i: int| charset[positions[i]])
}

/// The position vector that follows `positions`: one odometer step, or, when
/// the step rolls over and a longer string is still allowed, the zeros of the
/// next length.
pub open spec fn following(positions: Seq<int>, radix: int, max: nat) -> Seq<int> {
    if saturated(positions, radix) && positions.len() < max {
        zeros(positions.len() + 1)
    } else {
        successor(positions, radix)
    }
}

/// Whether `positions` spells the last string of all: the last combination
/// of the longest length.
pub open spec fn is_last(positions: Seq<int>, radix: int, max: nat) -> bool {
    saturated(positions, radix) && positions.len() >= max
}

/// How many position vectors have a length in `[from, to)`: the sum of
/// `radix` to the `len` over those lengths.
pub open spec fn span(radix: int, from: nat, to: nat) -> int
    decreases to,
{
    if to <= from {
        0
    } else {
        span(radix, from, (to - 1) as nat) + pow(radix, (to - 1) as nat)
    }
}

/// How many strings there are with a length between `min` and `max`.
pub open spec fn total(radix: int, min: nat, max: nat) -> int {
    span(radix, min, max + 1)
}

/// The place of a position vector in the enumeration, counted from zero:
/// every shorter vector comes before it, and so does every vector of its own
/// length that stands for a smaller number.
pub open spec fn rank(positions: Seq<int>, radix: int, min: nat) -> int {
    span(radix, min, positions.len()) + value(positions, radix)
}

/// The length of the vector at place `k`, together with the number that it
/// stands for, when the shortest length still to come is `len`.
pub open spec fn locate(k: int, radix: int, len: nat, max: nat) -> (nat, int)
    decreases max - len,
{
    if len >= max || k < pow(radix, len) {
        (len, k)
    } else {
        locate(k - pow(radix, len), radix, len + 1, max)
    }
}

/// The position vector at place `k` of the enumeration.
pub open spec fn nth_positions(k: int, radix: int, min: nat, max: nat) -> Seq<int> {
    let (len, offset) = locate(k, radix, min, max);
    digits_of(offset, radix, len)
}

/// Every string with a length between `min` and `max`, in the order in which
/// the enumerator hands them out.
pub open spec fn enumeration(charset: Seq<char>, min: nat, max: nat) -> Seq<Seq<char>> {
    Seq::new(
        total(charset.len() as int, min, max) as nat,
        |k: int| render(charset, nth_positions(k, charset.len() as int, min, max)),
    )
}

/// The lengths in `[from, to)` are the length `from` and those in
/// `[from + 1, to)`.
pub proof fn lemma_span_first(radix: int, from: nat, to: nat)
    requires
        from < to,
    ensures
        span(radix, from, to) == pow(radix, from) + span(radix, from + 1, to),
    decreases to,
{
    if to > from + 1 {
        lemma_span_first(radix, from, (to - 1) as nat);
    } else {
        assert(span(radix, from, from) == 0);
        assert(span(radix, from + 1, to) == 0);
    }
}

/// More lengths hold more vectors, and at least one more with each length.
pub proof fn lemma_span_grows(radix: int, from: nat, mid: nat, to: nat)
    requires
        radix >= 1,
        from <= mid <= to,
    ensures
        0 <= span(radix, from, mid),
        span(radix, from, mid) + (to - mid) <= span(radix, from, to),
    decreases to,
{
    if mid < to {
        lemma_span_grows(radix, from, mid, (to - 1) as nat);
        lemma_pow_positive(radix, (to - 1) as nat);
    } else if from < mid {
        lemma_span_grows(radix, from, from, (to - 1) as nat);
        lemma_pow_positive(radix, (to - 1) as nat);
    }
}

/// A place below the total falls into exactly one length, at an offset
/// below the number of vectors of that length.
pub proof fn lemma_locate(k: int, radix: int, len: nat, max: nat)
    requires
        radix >= 1,
        len <= max,
        0 <= k < span(radix, len, max + 1),
    ensures
        len <= locate(k, radix, len, max).0 <= max,
        0 <= locate(k, radix, len, max).1 < pow(radix, locate(k, radix, len, max).0),
        k == span(radix, len, locate(k, radix, len, max).0) + locate(k, radix, len, max).1,
    decreases max - len,
{
    lemma_span_first(radix, len, max + 1);
    if len >= max {
    } else if k < pow(radix, len) {
    } else {
        lemma_locate(k - pow(radix, len), radix, len + 1, max);
        lemma_span_first(radix, len, locate(k, radix, len, max).0);
    }
}

/// The offset `offset` within the length `found` lies at one place only,
/// and that place leads back to the length and the offset.
pub proof fn lemma_locate_back(offset: int, found: nat, radix: int, len: nat, max: nat)
    requires
        radix >= 1,
        len <= found <= max,
        0 <= offset < pow(radix, found),
    ensures
        locate(span(radix, len, found) + offset, radix, len, max) == (found, offset),
    decreases found - len,
{
    if len < found {
        lemma_span_first(radix, len, found);
        lemma_span_grows(radix, len + 1, len + 1, found);
        lemma_locate_back(offset, found, radix, len + 1, max);
    }
}

/// The vector at place `k` is a valid one, and `k` is its rank.
pub proof fn lemma_rank_of_nth(k: int, radix: int, min: nat, max: nat)
    requires
        radix >= 1,
        min <= max,
        0 <= k < total(radix, min, max),
    ensures
        min <= nth_positions(k, radix, min, max).len() <= max,
        in_range(nth_positions(k, radix, min, max), radix),
        rank(nth_positions(k, radix, min, max), radix, min) == k,
{
    lemma_locate(k, radix, min, max);
    let (len, offset) = locate(k, radix, min, max);
    lemma_value_of_digits(offset, radix, len);
}

/// A valid vector has a rank below the total, and it is the vector at the
/// place that its rank names.
pub proof fn lemma_nth_of_rank(positions: Seq<int>, radix: int, min: nat, max: nat)
    requires
        radix >= 1,
        min <= positions.len() <= max,
        in_range(positions, radix),
    ensures
        0 <= rank(positions, radix, min) < total(radix, min, max),
        nth_positions(rank(positions, radix, min), radix, min, max) == positions,
{
    lemma_value_bounds(positions, radix);
    lemma_locate_back(value(positions, radix), positions.len(), radix, min, max);
    lemma_digits_of_value(positions, radix);
    lemma_span_grows(radix, min, positions.len(), positions.len());
    lemma_span_grows(radix, min, positions.len() + 1, max + 1);
}

/// The vector that follows a valid vector is valid and has the next rank;
/// the last vector of all has the last rank.
pub proof fn lemma_rank_of_following(positions: Seq<int>, radix: int, min: nat, max: nat)
    requires
        radix >= 1,
        min <= positions.len() <= max,
        in_range(positions, radix),
    ensures
        is_last(positions, radix, max) ==> rank(positions, radix, min) == total(radix, min, max)
            - 1,
        !is_last(positions, radix, max) ==> {
            &&& min <= following(positions, radix, max).len() <= max
            &&& in_range(following(positions, radix, max), radix)
            &&& rank(following(positions, radix, max), radix, min) == rank(positions, radix, min)
                + 1
        },
{
    if saturated(positions, radix) {
        lemma_value_saturated(positions, radix);
        lemma_value_zeros(positions.len() + 1, radix);
    } else {
        lemma_successor_value(positions, radix);
        lemma_successor_in_range(positions, radix);
    }
}

} // verus!
