//! What holds of the enumeration as a whole.

use crate::order::{
    enumeration, following, is_last, lemma_nth_of_rank, lemma_rank_of_following,
    lemma_rank_of_nth, lemma_span_grows, nth_positions, render, span, total,
};
use crate::radix::{
    in_range, lemma_successor_in_range, lemma_value_bounds, lemma_value_saturated,
    lemma_value_zeros, saturated, value,
};
use vstd::arithmetic::power::pow;
use vstd::prelude::*;

verus! {

/// The digits that a string spells: for each character its index in the
/// alphabet.
pub open spec fn decode(charset: Seq<char>, text: Seq<char>) -> Seq<int> {
    Seq::new(text.len(), |i: int| charset.index_of(text[i]))
}

/// The number that a string stands for when the alphabet's order gives each
/// character its digit, the last character least significant.
pub open spec fn number(charset: Seq<char>, text: Seq<char>) -> int {
    value(decode(charset, text), charset.len() as int)
}

/// Over an alphabet without repeated symbols, a string spells the position
/// vector that it was made from.
pub proof fn lemma_decode_render(charset: Seq<char>, positions: Seq<int>)
    requires
        charset.no_duplicates(),
        in_range(positions, charset.len() as int),
    ensures
        decode(charset, render(charset, positions)) == positions,
{
    let text = render(charset, positions);
    assert forall|i: int| 0 <= i < positions.len() implies charset.index_of(text[i])
        == #[trigger] positions[i] by {
        let d = positions[i];
        assert(0 <= d < charset.len() && charset[d] == text[i]);
    }
    assert(decode(charset, text) =~= positions);
}

/// The enumeration holds one string for each position vector of each length
/// from `min` to `max`: the sum of `radix` to the `len` over those lengths,
/// where `radix` is the size of the alphabet.
pub proof fn lemma_count(charset: Seq<char>, min: nat, max: nat)
    requires
        charset.len() >= 1,
        min <= max,
    ensures
        enumeration(charset, min, max).len() == total(charset.len() as int, min, max),
        total(charset.len() as int, min, min) == pow(charset.len() as int, min),
        min < max ==> total(charset.len() as int, min, max) == total(
            charset.len() as int,
            min,
            (max - 1) as nat,
        ) + pow(charset.len() as int, max),
{
    let radix = charset.len() as int;
    lemma_span_grows(radix, min, min, max + 1);
    assert(span(radix, min, min) == 0);
}

/// Every string of the enumeration has a length between `min` and `max`,
/// and no string is shorter than one that comes before it.
pub proof fn lemma_lengths(charset: Seq<char>, min: nat, max: nat, i: int, j: int)
    requires
        charset.len() >= 1,
        min <= max,
        0 <= i <= j < enumeration(charset, min, max).len(),
    ensures
        min <= enumeration(charset, min, max)[i].len(),
        enumeration(charset, min, max)[i].len() <= enumeration(charset, min, max)[j].len(),
        enumeration(charset, min, max)[j].len() <= max,
{
    let radix = charset.len() as int;
    let a = nth_positions(i, radix, min, max);
    let b = nth_positions(j, radix, min, max);
    lemma_count(charset, min, max);
    lemma_rank_of_nth(i, radix, min, max);
    lemma_rank_of_nth(j, radix, min, max);
    if a.len() > b.len() {
        lemma_value_bounds(a, radix);
        lemma_value_bounds(b, radix);
        lemma_span_grows(radix, min, b.len() + 1, a.len());
    }
}

/// No position vector occurs twice in the enumeration.
pub proof fn lemma_positions_distinct(radix: int, min: nat, max: nat, i: int, j: int)
    requires
        radix >= 1,
        min <= max,
        0 <= i < total(radix, min, max),
        0 <= j < total(radix, min, max),
        i != j,
    ensures
        nth_positions(i, radix, min, max) != nth_positions(j, radix, min, max),
{
    lemma_rank_of_nth(i, radix, min, max);
    lemma_rank_of_nth(j, radix, min, max);
}

/// Over an alphabet without repeated symbols, no string occurs twice in the
/// enumeration.
pub proof fn lemma_distinct(charset: Seq<char>, min: nat, max: nat, i: int, j: int)
    requires
        charset.len() >= 1,
        charset.no_duplicates(),
        min <= max,
        0 <= i < enumeration(charset, min, max).len(),
        0 <= j < enumeration(charset, min, max).len(),
        i != j,
    ensures
        enumeration(charset, min, max)[i] != enumeration(charset, min, max)[j],
{
    let radix = charset.len() as int;
    lemma_count(charset, min, max);
    lemma_rank_of_nth(i, radix, min, max);
    lemma_rank_of_nth(j, radix, min, max);
    lemma_decode_render(charset, nth_positions(i, radix, min, max));
    lemma_decode_render(charset, nth_positions(j, radix, min, max));
}

/// From one place of the enumeration to the next the position vector moves
/// as the enumerator moves it. Where the length stays, the number that the
/// vector stands for goes up by one; where the length changes, it grows by
/// one, from the largest number of the old length to zero.
pub proof fn lemma_positions_step(radix: int, min: nat, max: nat, i: int)
    requires
        radix >= 1,
        min <= max,
        0 <= i,
        i + 1 < total(radix, min, max),
    ensures
        !is_last(nth_positions(i, radix, min, max), radix, max),
        nth_positions(i + 1, radix, min, max) == following(
            nth_positions(i, radix, min, max),
            radix,
            max,
        ),
        nth_positions(i + 1, radix, min, max).len() == nth_positions(i, radix, min, max).len()
            ==> value(nth_positions(i + 1, radix, min, max), radix) == value(
            nth_positions(i, radix, min, max),
            radix,
        ) + 1,
        nth_positions(i + 1, radix, min, max).len() != nth_positions(i, radix, min, max).len()
            ==> {
            &&& nth_positions(i + 1, radix, min, max).len() == nth_positions(
                i,
                radix,
                min,
                max,
            ).len() + 1
            &&& value(nth_positions(i, radix, min, max), radix) == pow(
                radix,
                nth_positions(i, radix, min, max).len(),
            ) - 1
            &&& value(nth_positions(i + 1, radix, min, max), radix) == 0
        },
{
    let a = nth_positions(i, radix, min, max);
    lemma_rank_of_nth(i, radix, min, max);
    lemma_rank_of_nth(i + 1, radix, min, max);
    lemma_rank_of_following(a, radix, min, max);
    lemma_nth_of_rank(following(a, radix, max), radix, min, max);
    lemma_successor_in_range(a, radix);
    if saturated(a, radix) {
        lemma_value_saturated(a, radix);
        lemma_value_zeros(a.len() + 1, radix);
    }
}

/// Over an alphabet without repeated symbols, two strings of one length that
/// follow each other in the enumeration stand for two numbers that follow
/// each other.
pub proof fn lemma_step(charset: Seq<char>, min: nat, max: nat, i: int)
    requires
        charset.len() >= 1,
        charset.no_duplicates(),
        min <= max,
        0 <= i,
        i + 1 < enumeration(charset, min, max).len(),
        enumeration(charset, min, max)[i].len() == enumeration(charset, min, max)[i + 1].len(),
    ensures
        number(charset, enumeration(charset, min, max)[i + 1]) == number(
            charset,
            enumeration(charset, min, max)[i],
        ) + 1,
{
    let radix = charset.len() as int;
    lemma_count(charset, min, max);
    lemma_rank_of_nth(i, radix, min, max);
    lemma_rank_of_nth(i + 1, radix, min, max);
    lemma_positions_step(radix, min, max, i);
    lemma_decode_render(charset, nth_positions(i, radix, min, max));
    lemma_decode_render(charset, nth_positions(i + 1, radix, min, max));
}

} // verus!
