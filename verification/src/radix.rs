//! Fixed-width numbers in a positional system: a vector of digits, the last
//! digit least significant, every digit below the radix.

use vstd::arithmetic::div_mod::{
    lemma_fundamental_div_mod, lemma_fundamental_div_mod_converse, lemma_mod_bound,
};
use vstd::arithmetic::power::pow;
use vstd::prelude::*;

verus! {

/// Every digit lies in `[0, radix)`.
pub open spec fn in_range(digits: Seq<int>, radix: int) -> bool {
    forall|i: int| 0 <= i < digits.len() ==> 0 <= #[trigger] digits[i] < radix
}

/// The number that a digit vector stands for.
pub open spec fn value(digits: Seq<int>, radix: int) -> int
    decreases digits.len(),
{
    if digits.len() == 0 {
        0
    } else {
        value(digits.drop_last(), radix) * radix + digits.last()
    }
}

/// The digit vector of the given width that holds only zeros.
pub open spec fn zeros(len: nat) -> Seq<int> {
    Seq::new(len, |i: int| 0int)
}

/// Every digit is at its maximum, `radix - 1`.
pub open spec fn saturated(digits: Seq<int>, radix: int) -> bool {
    forall|i: int| 0 <= i < digits.len() ==> #[trigger] digits[i] == radix - 1
}

/// One odometer step: from the last digit towards the first, a digit at its
/// maximum falls back to zero and the step carries on; the first digit below
/// its maximum is raised by one and the step ends. A saturated vector rolls
/// over to all zeros.
pub open spec fn successor(digits: Seq<int>, radix: int) -> Seq<int>
    decreases digits.len(),
{
    if digits.len() == 0 {
        digits
    } else if digits.last() == radix - 1 {
        successor(digits.drop_last(), radix).push(0)
    } else {
        digits.drop_last().push(digits.last() + 1)
    }
}

/// The `len` digits of `v`.
pub open spec fn digits_of(v: int, radix: int, len: nat) -> Seq<int>
    decreases len,
{
    if len == 0 {
        Seq::empty()
    } else {
        digits_of(v / radix, radix, (len - 1) as nat).push(v % radix)
    }
}

/// A step carries through a saturated tail: the tail falls back to zeros
/// and the step goes on in the digits before it.
pub proof fn lemma_successor_carries(digits: Seq<int>, radix: int, i: int)
    requires
        0 <= i <= digits.len(),
        forall|j: int| i <= j < digits.len() ==> #[trigger] digits[j] == radix - 1,
    ensures
        successor(digits, radix) == successor(digits.subrange(0, i), radix) + zeros(
            (digits.len() - i) as nat,
        ),
    decreases digits.len() - i,
{
    if i == digits.len() {
        assert(digits.subrange(0, i) =~= digits);
        assert(successor(digits, radix) + zeros(0) =~= successor(digits, radix));
    } else {
        let front = digits.drop_last();
        lemma_successor_carries(front, radix, i);
        assert(front.subrange(0, i) =~= digits.subrange(0, i));
        assert((successor(digits.subrange(0, i), radix) + zeros((front.len() - i) as nat)).push(0)
            =~= successor(digits.subrange(0, i), radix) + zeros((digits.len() - i) as nat));
    }
}

/// A step keeps the width and keeps every digit below the radix.
pub proof fn lemma_successor_in_range(digits: Seq<int>, radix: int)
    requires
        radix >= 1,
        in_range(digits, radix),
    ensures
        successor(digits, radix).len() == digits.len(),
        in_range(successor(digits, radix), radix),
    decreases digits.len(),
{
    if digits.len() > 0 {
        lemma_successor_in_range(digits.drop_last(), radix);
    }
}

/// A step on a saturated vector rolls it over to zeros.
pub proof fn lemma_successor_of_saturated(digits: Seq<int>, radix: int)
    requires
        saturated(digits, radix),
    ensures
        successor(digits, radix) == zeros(digits.len()),
{
    lemma_successor_carries(digits, radix, 0);
    assert(digits.subrange(0, 0) =~= Seq::<int>::empty());
    assert(Seq::<int>::empty() + zeros(digits.len()) =~= zeros(digits.len()));
}

/// One more digit multiplies the number of vectors by the radix.
pub proof fn lemma_pow_next(radix: int, len: nat)
    ensures
        pow(radix, len + 1) == pow(radix, len) * radix,
{
    reveal(pow);
    assert(radix * pow(radix, len) == pow(radix, len) * radix) by (nonlinear_arith);
}

/// A vector of `len` digits stands for a number below `radix` to the `len`.
pub proof fn lemma_value_bounds(digits: Seq<int>, radix: int)
    requires
        radix >= 1,
        in_range(digits, radix),
    ensures
        0 <= value(digits, radix) < pow(radix, digits.len()),
    decreases digits.len(),
{
    if digits.len() == 0 {
        reveal(pow);
    } else {
        let front = digits.drop_last();
        lemma_value_bounds(front, radix);
        lemma_pow_next(radix, front.len());
        let v = value(front, radix);
        let p = pow(radix, front.len());
        assert(0 <= v * radix && v * radix + radix <= p * radix) by (nonlinear_arith)
            requires
                0 <= v < p,
                radix >= 1,
        ;
    }
}

/// The zeros stand for the number zero.
pub proof fn lemma_value_zeros(len: nat, radix: int)
    ensures
        value(zeros(len), radix) == 0,
    decreases len,
{
    if len > 0 {
        lemma_value_zeros((len - 1) as nat, radix);
        assert(zeros(len).drop_last() =~= zeros((len - 1) as nat));
    }
}

/// A saturated vector stands for the largest number of its width.
pub proof fn lemma_value_saturated(digits: Seq<int>, radix: int)
    requires
        saturated(digits, radix),
    ensures
        value(digits, radix) == pow(radix, digits.len()) - 1,
    decreases digits.len(),
{
    if digits.len() == 0 {
        reveal(pow);
    } else {
        let front = digits.drop_last();
        lemma_value_saturated(front, radix);
        lemma_pow_next(radix, front.len());
        let p = pow(radix, front.len());
        assert((p - 1) * radix + (radix - 1) == p * radix - 1) by (nonlinear_arith);
    }
}

/// A step on a vector that is not saturated adds one to its number.
pub proof fn lemma_successor_value(digits: Seq<int>, radix: int)
    requires
        !saturated(digits, radix),
    ensures
        value(successor(digits, radix), radix) == value(digits, radix) + 1,
    decreases digits.len(),
{
    let front = digits.drop_last();
    if digits.len() == 0 {
    } else if digits.last() == radix - 1 {
        assert(!saturated(front, radix)) by {
            if saturated(front, radix) {
                assert forall|i: int| 0 <= i < digits.len() implies #[trigger] digits[i] == radix
                    - 1 by {
                    if i < front.len() {
                        assert(front[i] == digits[i]);
                    }
                }
            }
        }
        lemma_successor_value(front, radix);
        let next = successor(front, radix);
        assert(next.push(0).drop_last() =~= next);
        let v = value(front, radix);
        assert((v + 1) * radix + 0 == v * radix + (radix - 1) + 1) by (nonlinear_arith);
    } else {
        assert(front.push(digits.last() + 1).drop_last() =~= front);
    }
}

/// Writing a number out in digits and reading it back gives the number, as
/// long as the width holds it.
pub proof fn lemma_value_of_digits(v: int, radix: int, len: nat)
    requires
        radix >= 1,
        0 <= v < pow(radix, len),
    ensures
        digits_of(v, radix, len).len() == len,
        in_range(digits_of(v, radix, len), radix),
        value(digits_of(v, radix, len), radix) == v,
    decreases len,
{
    if len == 0 {
        reveal(pow);
    } else {
        let shorter = (len - 1) as nat;
        let q = v / radix;
        let r = v % radix;
        lemma_fundamental_div_mod(v, radix);
        lemma_mod_bound(v, radix);
        lemma_pow_next(radix, shorter);
        let p = pow(radix, shorter);
        assert(0 <= q < p) by (nonlinear_arith)
            requires
                v == radix * q + r,
                0 <= r < radix,
                0 <= v < p * radix,
                radix >= 1,
        ;
        lemma_value_of_digits(q, radix, shorter);
        let front = digits_of(q, radix, shorter);
        assert(front.push(r).drop_last() =~= front);
        assert(q * radix + r == radix * q + r) by (nonlinear_arith);
    }
}

/// Reading a vector as a number and writing the number out again gives the
/// vector: no two vectors of one width stand for the same number.
pub proof fn lemma_digits_of_value(digits: Seq<int>, radix: int)
    requires
        radix >= 1,
        in_range(digits, radix),
    ensures
        digits_of(value(digits, radix), radix, digits.len()) == digits,
    decreases digits.len(),
{
    if digits.len() == 0 {
        assert(digits =~= Seq::<int>::empty());
    } else {
        let front = digits.drop_last();
        lemma_digits_of_value(front, radix);
        let v = value(digits, radix);
        lemma_fundamental_div_mod_converse(v, radix, value(front, radix), digits.last());
        assert(front.push(digits.last()) =~= digits);
    }
}

} // verus!
