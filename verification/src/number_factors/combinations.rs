use vstd::prelude::*;

verus! {

use vstd::arithmetic::power2::{pow2, lemma2_to64, lemma_pow2_pos, lemma_pow2_unfold, lemma_pow2_strictly_increases};
use crate::number_factors::bit_math::{
    pop, low_ones, high_ones, next_same_pop_bits, lemma_pop_concat, lemma_pop_positive,
    lemma_pop_least, lemma_pop_greatest, lemma_high_ones, lemma_pop_low_ones,
    lemma_next_same_pop_bits, lemma_not_greatest_of_pop, lemma_pop_unfold,
};

/// `y` is the least number greater than `x` with as many ones as `x`: what
/// `next_bit_lex(x)` returns.
pub open spec fn is_next_same_pop(x: nat, y: nat) -> bool {
    &&& x < y
    &&& pop(y) == pop(x)
    &&& forall|m: nat| x < m < y ==> #[trigger] pop(m) != pop(x)
}

/// The least number greater than `x` with as many ones, where there is one.
pub open spec fn next_same_pop(x: nat) -> nat {
    choose|y: nat| is_next_same_pop(x, y)
}

/// The numbers with `k` ones in increasing order, as `next_bit_lex` steps
/// through them from `2^k - 1`: the `i`-th one.
pub open spec fn lex_walk(k: nat, i: nat) -> nat
    decreases i,
{
    if i == 0 {
        low_ones(k)
    } else {
        next_same_pop(lex_walk(k, (i - 1) as nat))
    }
}

/// How many numbers below `x` have `k` ones.
pub open spec fn count_pop_below(x: nat, k: nat) -> nat
    decreases x,
{
    if x == 0 {
        0
    } else {
        count_pop_below((x - 1) as nat, k) + if pop((x - 1) as nat) == k {
            1nat
        } else {
            0nat
        }
    }
}

/// The number of ways to choose `k` of `s` elements.
pub open spec fn binomial(s: nat, k: nat) -> nat
    decreases s,
{
    if k == 0 {
        1
    } else if s == 0 {
        0
    } else {
        binomial((s - 1) as nat, (k - 1) as nat) + binomial((s - 1) as nat, k)
    }
}

/// There is only one least greater number with as many ones.
pub proof fn lemma_next_same_pop_unique(x: nat, y: nat)
    requires
        is_next_same_pop(x, y),
    ensures
        next_same_pop(x) == y,
{
    let z = next_same_pop(x);
    assert(is_next_same_pop(x, z));
    if z < y {
        assert(pop(z) != pop(x));
    } else if y < z {
        assert(pop(y) != pop(x));
    }
}

/// The count only grows.
proof fn lemma_count_monotone(x: nat, y: nat, k: nat)
    requires
        x <= y,
    ensures
        count_pop_below(x, k) <= count_pop_below(y, k),
    decreases y,
{
    if x < y {
        lemma_count_monotone(x, (y - 1) as nat, k);
    }
}

/// A number with `k` ones has more numbers with `k` ones above it counted
/// below any greater bound.
proof fn lemma_count_strict(x: nat, y: nat, k: nat)
    requires
        x < y,
        pop(x) == k,
    ensures
        count_pop_below(x, k) < count_pop_below(y, k),
{
    lemma_count_monotone(x + 1, y, k);
    assert(count_pop_below(x + 1, k) == count_pop_below(x, k) + 1);
}

/// Between a number and the next one with as many ones, the count grows by
/// exactly one.
proof fn lemma_count_next(x: nat, y: nat, z: nat)
    requires
        is_next_same_pop(x, y),
        x < z <= y,
    ensures
        count_pop_below(z, pop(x)) == count_pop_below(x, pop(x)) + 1,
    decreases z,
{
    if z > x + 1 {
        lemma_count_next(x, y, (z - 1) as nat);
        assert(pop((z - 1) as nat) != pop(x));
    }
}

/// No number below `2^k - 1` has `k` ones.
proof fn lemma_count_below_low_ones(x: nat, k: nat)
    requires
        x <= low_ones(k),
    ensures
        count_pop_below(x, k) == 0,
    decreases x,
{
    if x > 0 {
        lemma_count_below_low_ones((x - 1) as nat, k);
        if pop((x - 1) as nat) == k {
            lemma_pop_least((x - 1) as nat, k);
        }
    }
}

/// No number from the greatest `s`-bit number with `k` ones up to `2^s`
/// but that one has `k` ones.
proof fn lemma_count_above_high_ones(s: nat, k: nat, x: nat)
    requires
        k <= s,
        high_ones(s, k) < x <= pow2(s),
    ensures
        count_pop_below(x, k) == count_pop_below(high_ones(s, k), k) + 1,
    decreases x,
{
    lemma_high_ones(s, k);
    if x > high_ones(s, k) + 1 {
        lemma_count_above_high_ones(s, k, (x - 1) as nat);
        if pop((x - 1) as nat) == k {
            lemma_pop_greatest((x - 1) as nat, s, k);
        }
    }
}

/// Counting in the upper half: a number `2^(s-1) + y` has one more one
/// than `y`.
proof fn lemma_count_upper_half(s: nat, k: nat, y: nat)
    requires
        s >= 1,
        k >= 1,
        y <= pow2((s - 1) as nat),
    ensures
        count_pop_below(pow2((s - 1) as nat) + y, k) == count_pop_below(pow2((s - 1) as nat), k)
            + count_pop_below(y, (k - 1) as nat),
    decreases y,
{
    if y > 0 {
        let h = pow2((s - 1) as nat);
        lemma_count_upper_half(s, k, (y - 1) as nat);
        lemma_pop_concat(1, (y - 1) as nat, (s - 1) as nat);
        lemma_pop_unfold(1);
        lemma_pop_unfold(0);
        assert(1 * h + (y - 1) as nat == (h + y - 1) as nat);
    }
}

/// There are `binomial(s, k)` numbers below `2^s` with `k` ones.
pub proof fn lemma_count_is_binomial(s: nat, k: nat)
    ensures
        count_pop_below(pow2(s), k) == binomial(s, k),
    decreases s,
{
    lemma2_to64();
    if k == 0 {
        assert forall|x: nat| 1 <= x implies count_pop_below(x, 0) == 1 by {
            lemma_count_zero_ones(x);
        }
        lemma_pow2_pos(s);
    } else if s == 0 {
        assert(count_pop_below(1, k) == count_pop_below(0, k) + 0) by {
            lemma_pop_unfold(0);
        }
    } else {
        lemma_pow2_unfold(s);
        lemma_count_upper_half(s, k, pow2((s - 1) as nat));
        lemma_count_is_binomial((s - 1) as nat, k);
        lemma_count_is_binomial((s - 1) as nat, (k - 1) as nat);
    }
}

/// Only 0 has no ones.
proof fn lemma_count_zero_ones(x: nat)
    requires
        x >= 1,
    ensures
        count_pop_below(x, 0) == 1,
    decreases x,
{
    assert(pop(0) == 0);
    if x > 1 {
        lemma_count_zero_ones((x - 1) as nat);
        lemma_pop_positive((x - 1) as nat);
    } else {
        assert(count_pop_below(0, 0) == 0);
        assert(count_pop_below(1, 0) == count_pop_below(0, 0) + 1);
    }
}

/// The `i`-th step of the walk is an `s`-bit number with `k` ones and `i`
/// such numbers below it.
proof fn lemma_walk_step(s: nat, k: nat, i: nat)
    requires
        1 <= k <= s <= 64,
        i < binomial(s, k),
    ensures
        lex_walk(k, i) < pow2(s),
        pop(lex_walk(k, i)) == k,
        count_pop_below(lex_walk(k, i), k) == i,
    decreases i,
{
    lemma2_to64();
    lemma_high_ones(s, k);
    lemma_count_is_binomial(s, k);
    if i == 0 {
        lemma_pop_low_ones(k);
        lemma_count_below_low_ones(low_ones(k), k);
        lemma_pow2_pos(k);
        if k < s {
            lemma_pow2_strictly_increases(k, s);
        }
    } else {
        lemma_walk_step(s, k, (i - 1) as nat);
        let w = lex_walk(k, (i - 1) as nat);
        let top = high_ones(s, k);
        lemma_pop_greatest(w, s, k);
        if w == top {
            lemma_count_above_high_ones(s, k, pow2(s));
        }
        assert(w < top);
        if s < 64 {
            lemma_pow2_strictly_increases(s, 64);
        }
        let wx = w as u64;
        let tx = top as u64;
        assert(wx < tx && pop(tx as nat) == pop(wx as nat));
        lemma_not_greatest_of_pop(wx);
        lemma_next_same_pop_bits(wx);
        let y = next_same_pop_bits(wx) as nat;
        assert(is_next_same_pop(w, y));
        lemma_next_same_pop_unique(w, y);
        if y > top {
            assert(pop(top) != pop(w));
        }
        lemma_count_next(w, y, y);
    }
}

/// Stepping with `next_bit_lex` from `2^k - 1` visits every `s`-bit number
/// with `k` ones exactly once, in increasing order, and reaches the greatest
/// of them, the mask of `k` ones at the top, after `binomial(s, k) - 1`
/// steps.
pub proof fn lemma_lex_walk(s: nat, k: nat)
    requires
        1 <= k <= s <= 64,
    ensures
        binomial(s, k) >= 1,
        forall|i: nat|
            i < binomial(s, k) ==> #[trigger] lex_walk(k, i) < pow2(s) && pop(lex_walk(k, i))
                == k,
        forall|i: nat, j: nat|
            i < j < binomial(s, k) ==> #[trigger] lex_walk(k, i) < #[trigger] lex_walk(k, j),
        forall|x: nat|
            x < pow2(s) && pop(x) == k ==> count_pop_below(x, k) < binomial(s, k) && lex_walk(
                k,
                #[trigger] count_pop_below(x, k),
            ) == x,
        lex_walk(k, (binomial(s, k) - 1) as nat) == high_ones(s, k),
{
    lemma2_to64();
    lemma_count_is_binomial(s, k);
    lemma_high_ones(s, k);
    lemma_count_strict(high_ones(s, k), pow2(s), k);
    assert forall|i: nat| i < binomial(s, k) implies #[trigger] lex_walk(k, i) < pow2(s) && pop(
        lex_walk(k, i),
    ) == k by {
        lemma_walk_step(s, k, i);
    }
    assert forall|i: nat, j: nat| i < j < binomial(s, k) implies #[trigger] lex_walk(k, i)
        < #[trigger] lex_walk(k, j) by {
        lemma_walk_step(s, k, i);
        lemma_walk_step(s, k, j);
        if lex_walk(k, j) <= lex_walk(k, i) {
            lemma_count_monotone(lex_walk(k, j), lex_walk(k, i), k);
        }
    }
    assert forall|x: nat| x < pow2(s) && pop(x) == k implies count_pop_below(x, k) < binomial(
        s,
        k,
    ) && lex_walk(k, #[trigger] count_pop_below(x, k)) == x by {
        lemma_count_strict(x, pow2(s), k);
        let j = count_pop_below(x, k);
        lemma_walk_step(s, k, j);
        let w = lex_walk(k, j);
        if w < x {
            lemma_count_strict(w, x, k);
        } else if x < w {
            lemma_count_strict(x, w, k);
        }
    }
    lemma_count_above_high_ones(s, k, pow2(s));
    let top = high_ones(s, k);
    assert(lex_walk(k, count_pop_below(top, k)) == top);
}

} // verus!
