use vstd::prelude::*;

verus! {

use vstd::arithmetic::power2::{pow2, lemma2_to64, lemma_pow2_pos, lemma_pow2_unfold, lemma_pow2_adds};
use vstd::arithmetic::div_mod::{lemma_fundamental_div_mod, lemma_fundamental_div_mod_converse};
use vstd::bits::{
    low_bits_mask, lemma_u64_shl_is_mul, lemma_u64_shr_is_div, lemma_u64_pow2_no_overflow,
    lemma_u64_low_bits_mask_is_mod,
};

/// Number of ones in the binary representation of `x`.
pub open spec fn pop(x: nat) -> nat
    decreases x,
{
    if x == 0 {
        0
    } else {
        x % 2 + pop(x / 2)
    }
}

/// Whether bit `i` of `x` is set.
pub open spec fn bit_set(x: nat, i: nat) -> bool {
    (x / pow2(i)) % 2 == 1
}

/// `2^k - 1`: the number whose lowest `k` bits are set and no other.
pub open spec fn low_ones(k: nat) -> nat {
    (pow2(k) - 1) as nat
}

/// The number with `k` ones at the top of an `n`-bit word and zeros below
/// them: the greatest `n`-bit number with `k` ones.
pub open spec fn high_ones(n: nat, k: nat) -> nat {
    low_ones(k) * pow2((n - k) as nat)
}

/// The `n`-bit number whose bits are those of `m` flipped.
pub open spec fn complement(m: nat, n: nat) -> nat {
    (low_ones(n) - m) as nat
}

/// `x` splits into its lowest bit and the rest.
pub proof fn lemma_pop_unfold(x: nat)
    ensures
        pop(x) == x % 2 + pop(x / 2),
{
}

/// Halving `2 * c + d` for a bit `d`.
proof fn lemma_halve(c: nat, d: nat)
    requires
        d < 2,
    ensures
        (2 * c + d) / 2 == c,
        (2 * c + d) % 2 == d,
{
    lemma_fundamental_div_mod_converse((2 * c + d) as int, 2, c as int, d as int);
}

/// Halving `a * 2^k + b` when `k > 0`.
proof fn lemma_halve_shifted(a: nat, b: nat, k: nat)
    requires
        k > 0,
        b < pow2(k),
    ensures
        (a * pow2(k) + b) / 2 == a * pow2((k - 1) as nat) + b / 2,
        (a * pow2(k) + b) % 2 == b % 2,
        b / 2 < pow2((k - 1) as nat),
{
    lemma_pow2_unfold(k);
    let q = pow2((k - 1) as nat);
    assert(a * pow2(k) == 2 * (a * q)) by (nonlinear_arith)
        requires
            pow2(k) == 2 * q,
    ;
    lemma_halve(a * q + b / 2, b % 2);
    assert(a * pow2(k) + b == 2 * (a * q + b / 2) + b % 2);
}

/// Bits of `b` below `2^k` and bits of `a` shifted above it do not mix.
pub proof fn lemma_pop_concat(a: nat, b: nat, k: nat)
    requires
        b < pow2(k),
    ensures
        pop(a * pow2(k) + b) == pop(a) + pop(b),
    decreases k,
{
    if k == 0 {
        lemma2_to64();
        assert(b == 0);
        assert(a * pow2(k) + b == a);
    } else {
        lemma_halve_shifted(a, b, k);
        lemma_pop_concat(a, b / 2, (k - 1) as nat);
        lemma_pop_unfold(a * pow2(k) + b);
        lemma_pop_unfold(b);
    }
}

/// A number below `2^k` has at most `k` ones, and exactly `k` only if it is
/// `2^k - 1`.
pub proof fn lemma_pop_bound(s: nat, k: nat)
    requires
        s < pow2(k),
    ensures
        pop(s) <= k,
        pop(s) == k ==> s == low_ones(k),
    decreases k,
{
    if k == 0 {
        lemma2_to64();
    } else {
        lemma_pow2_unfold(k);
        lemma_halve(s / 2, s % 2);
        lemma_pop_bound(s / 2, (k - 1) as nat);
        lemma_pop_unfold(s);
    }
}

/// `2^k - 1` has `k` ones.
pub proof fn lemma_pop_low_ones(k: nat)
    ensures
        pop(low_ones(k)) == k,
    decreases k,
{
    if k == 0 {
        lemma2_to64();
    } else {
        lemma_pow2_unfold(k);
        lemma_pow2_pos((k - 1) as nat);
        lemma_halve(low_ones((k - 1) as nat), 1);
        lemma_pop_low_ones((k - 1) as nat);
        lemma_pop_unfold(low_ones(k));
    }
}

/// A positive number has at least one bit set.
pub proof fn lemma_pop_positive(x: nat)
    requires
        x > 0,
    ensures
        pop(x) >= 1,
    decreases x,
{
    if x % 2 == 0 {
        lemma_pop_positive(x / 2);
    }
}

/// The least number with `k` ones is `2^k - 1`.
pub proof fn lemma_pop_least(m: nat, k: nat)
    requires
        pop(m) == k,
    ensures
        m >= low_ones(k),
    decreases m,
{
    if m == 0 {
        lemma2_to64();
    } else {
        lemma_pop_least(m / 2, (k - m % 2) as nat);
        if m % 2 == 1 {
            lemma_pow2_unfold(k);
        } else {
            lemma_pow2_pos(k);
        }
    }
}

/// An `n`-bit number with `k` ones is at most the one whose ones are all at
/// the top.
pub proof fn lemma_pop_greatest(m: nat, n: nat, k: nat)
    requires
        m < pow2(n),
        pop(m) == k,
    ensures
        k <= n,
        m <= high_ones(n, k),
    decreases n,
{
    lemma_pop_bound(m, n);
    if n == 0 {
        lemma2_to64();
    } else {
        lemma_pow2_unfold(n);
        lemma_halve(m / 2, m % 2);
        if m % 2 == 1 {
            lemma_pop_greatest(m / 2, (n - 1) as nat, (k - 1) as nat);
            lemma_pow2_unfold(k);
            lemma_pow2_pos((n - k) as nat);
            lemma_pow2_pos((k - 1) as nat);
            let q = pow2((n - k) as nat);
            assert((n - 1 - (k - 1)) as nat == (n - k) as nat);
            assert(m / 2 <= (pow2((k - 1) as nat) - 1) * q);
            assert(m <= high_ones(n, k)) by (nonlinear_arith)
                requires
                    m == 2 * (m / 2) + 1,
                    m / 2 <= (pow2((k - 1) as nat) - 1) * q,
                    pow2(k) == 2 * pow2((k - 1) as nat),
                    high_ones(n, k) == (pow2(k) - 1) * q,
                    q >= 1,
            ;
        } else {
            lemma_pop_greatest(m / 2, (n - 1) as nat, k);
            lemma_pow2_unfold((n - k) as nat);
            let q = pow2((n - 1 - k) as nat);
            assert(m <= high_ones(n, k)) by (nonlinear_arith)
                requires
                    m == 2 * (m / 2),
                    m / 2 <= low_ones(k) * q,
                    high_ones(n, k) == low_ones(k) * (2 * q),
            ;
        }
    }
}

/// The greatest `n`-bit number with `k` ones has `k` ones and fits in `n`
/// bits.
pub proof fn lemma_high_ones(n: nat, k: nat)
    requires
        k <= n,
    ensures
        pop(high_ones(n, k)) == k,
        high_ones(n, k) < pow2(n),
{
    lemma_pow2_pos((n - k) as nat);
    lemma_pop_concat(low_ones(k), 0, (n - k) as nat);
    lemma_pop_low_ones(k);
    lemma_pow2_pos(k);
    lemma_pow2_adds(k, (n - k) as nat);
    lemma_pow2_pos((n - k) as nat);
    assert(high_ones(n, k) < pow2(n)) by (nonlinear_arith)
        requires
            high_ones(n, k) == (pow2(k) - 1) * pow2((n - k) as nat),
            pow2(n) == pow2(k) * pow2((n - k) as nat),
            pow2((n - k) as nat) > 0,
    ;
}

/// Flipping every bit of an `n`-bit number flips its count of ones.
pub proof fn lemma_pop_complement(m: nat, n: nat)
    requires
        m < pow2(n),
    ensures
        pop(complement(m, n)) == n - pop(m),
    decreases n,
{
    lemma_pop_bound(m, n);
    if n == 0 {
        lemma2_to64();
    } else {
        lemma_pow2_unfold(n);
        lemma_halve(m / 2, m % 2);
        let c = complement(m, n);
        let h = (low_ones((n - 1) as nat) - m / 2) as nat;
        lemma_halve(h, (1 - m % 2) as nat);
        assert(c == 2 * h + (1 - m % 2));
        lemma_pop_complement(m / 2, (n - 1) as nat);
        lemma_pop_unfold(c);
        lemma_pop_unfold(m);
    }
}

/// Bit `n - 1` of an `n`-bit number is set exactly when the number is at
/// least `2^(n - 1)`.
pub proof fn lemma_top_bit(m: nat, n: nat)
    requires
        n > 0,
        m < pow2(n),
    ensures
        bit_set(m, (n - 1) as nat) <==> m >= pow2((n - 1) as nat),
{
    let q = pow2((n - 1) as nat);
    lemma_pow2_unfold(n);
    lemma_pow2_pos((n - 1) as nat);
    if m >= q {
        lemma_fundamental_div_mod_converse(m as int, q as int, 1, (m - q) as int);
    } else {
        lemma_fundamental_div_mod_converse(m as int, q as int, 0, m as int);
    }
}


/// A number whose lowest block of ones runs from bit `z` to bit `p - 1`, with
/// bit `p` clear and `a` above it.
pub open spec fn block_at(a: nat, p: nat, z: nat) -> nat {
    (a * pow2(p + 1) + pow2(p) - pow2(z)) as nat
}

/// The block of ones of `block_at(a, p, z)` after its top one has moved up
/// to bit `p` and the others have dropped to the bottom.
pub open spec fn block_moved(a: nat, p: nat, z: nat) -> nat {
    a * pow2(p + 1) + pow2(p) + low_ones((p - z - 1) as nat)
}

/// Moving the top one of the lowest block up by one and the rest of the
/// block down to bit 0 gives the next greater number with as many ones.
pub proof fn lemma_block_moved_is_next(a: nat, p: nat, z: nat)
    requires
        z < p,
    ensures
        block_at(a, p, z) < block_moved(a, p, z),
        pop(block_moved(a, p, z)) == pop(block_at(a, p, z)),
        forall|m: nat|
            block_at(a, p, z) < m < block_moved(a, p, z) ==> #[trigger] pop(m) != pop(
                block_at(a, p, z),
            ),
{
    let len = (p - z) as nat;
    let big = pow2(p + 1);
    let top = pow2(p);
    let bottom = pow2(z);
    let block = low_ones(len) * bottom;
    let rest = low_ones((len - 1) as nat);
    lemma_pow2_adds(len, z);
    lemma_pow2_unfold(p + 1);
    lemma_pow2_unfold(len);
    lemma_pow2_pos(z);
    lemma_pow2_pos((len - 1) as nat);
    lemma_pow2_pos(len);
    assert(len + z == p);
    assert(block == top - bottom) by (nonlinear_arith)
        requires
            block == (pow2(len) - 1) * bottom,
            top == pow2(len) * bottom,
    ;
    assert(pow2((len - 1) as nat) <= top) by (nonlinear_arith)
        requires
            pow2(len) == 2 * pow2((len - 1) as nat),
            top == pow2(len) * bottom,
            bottom > 0,
    ;
    // The number before the step.
    assert(block_at(a, p, z) == a * big + block);
    lemma_pop_concat(low_ones(len), 0, z);
    lemma_pop_low_ones(len);
    lemma_pop_concat(a, block, p + 1);
    assert(pop(block_at(a, p, z)) == pop(a) + len);
    // The number after the step.
    let tail = top + rest;
    assert(tail == 1 * top + rest);
    lemma_pop_concat(1, rest, p);
    lemma_pop_low_ones((len - 1) as nat);
    assert(pop(1) == 1) by {
        lemma_pop_unfold(1);
    }
    lemma_pop_concat(a, tail, p + 1);
    assert(block_moved(a, p, z) == a * big + tail);
    // Nothing in between has as many ones.
    assert forall|m: nat|
        block_at(a, p, z) < m < block_moved(a, p, z) implies #[trigger] pop(m) != pop(
        block_at(a, p, z),
    ) by {
        let s = (m - a * big) as nat;
        assert(m == a * big + s);
        lemma_pop_concat(a, s, p + 1);
        if s < top {
            let e = (s - block) as nat;
            assert(s == low_ones(len) * bottom + e);
            lemma_pop_concat(low_ones(len), e, z);
            lemma_pop_positive(e);
        } else {
            let e = (s - top) as nat;
            assert(s == 1 * top + e);
            lemma_pop_concat(1, e, p);
            lemma_pop_bound(e, (len - 1) as nat);
        }
    }
}


/// Index of the lowest set bit of a nonzero `x`, read off the isolated
/// lowest bit `x & -x` one binary digit of the index at a time.
pub open spec fn ctz(x: u64) -> u64 {
    let low = x & ((!x + 1) as u64);
    ((if low & 0xFFFF_FFFF_0000_0000u64 != 0 { 32u64 } else { 0u64 }) + (if low
        & 0xFFFF_0000_FFFF_0000u64 != 0 {
        16u64
    } else {
        0u64
    }) + (if low & 0xFF00_FF00_FF00_FF00u64 != 0 {
        8u64
    } else {
        0u64
    }) + (if low & 0xF0F0_F0F0_F0F0_F0F0u64 != 0 {
        4u64
    } else {
        0u64
    }) + (if low & 0xCCCC_CCCC_CCCC_CCCCu64 != 0 {
        2u64
    } else {
        0u64
    }) + (if low & 0xAAAA_AAAA_AAAA_AAAAu64 != 0 {
        1u64
    } else {
        0u64
    })) as u64
}

/// `x` with every bit below its lowest set bit set too.
pub open spec fn fill_below(x: u64) -> u64 {
    x | ((x - 1) as u64)
}

/// The lowest clear bit of `fill_below(x)`: the bit just above the lowest
/// block of ones of `x`.
pub open spec fn gap_bit(x: u64) -> u64 {
    !fill_below(x) & ((fill_below(x) + 1) as u64)
}

/// The bits of `x` above `gap_bit(x)`.
pub open spec fn bits_above_gap(x: u64) -> u64 {
    ((fill_below(x) + 1) as u64) ^ gap_bit(x)
}

/// The bit formula of the step to the next number with as many ones.
pub open spec fn next_same_pop_bits(x: u64) -> u64 {
    ((fill_below(x) + 1) as u64) | (((gap_bit(x) - 1) as u64) >> ((ctz(x) + 1) as u64))
}

/// `ctz` gives the index of the lowest set bit.
pub proof fn lemma_ctz(x: u64)
    requires
        x != 0,
    ensures
        ctz(x) < 64,
        x as nat % pow2(ctz(x) as nat) == 0,
        bit_set(x as nat, ctz(x) as nat),
{
    let z = ctz(x);
    assert(z < 64 && (x >> z) & 1 == 1 && x & (((1u64 << z) - 1) as u64) == 0) by (bit_vector)
        requires
            x != 0,
            z == ctz(x),
    ;
    lemma_u64_shr_is_div(x, z);
    assert((x >> z) % 2 == 1) by (bit_vector)
        requires
            (x >> z) & 1 == 1,
    ;
    lemma_u64_pow2_no_overflow(z as nat);
    lemma_u64_shl_is_mul(1, z);
    lemma_u64_low_bits_mask_is_mod(x, z as nat);
}

proof fn lemma_gap_facts(x: u64)
    by (bit_vector)
    requires
        x != 0,
        fill_below(x) != 0xFFFF_FFFF_FFFF_FFFFu64,
    ensures
        ctz(x) < ctz(!fill_below(x)),
        ctz(!fill_below(x)) < 64,
        gap_bit(x) == 1u64 << ctz(!fill_below(x)),
        x + (1u64 << ctz(x)) == bits_above_gap(x) + gap_bit(x),
        bits_above_gap(x) & (gap_bit(x) | ((gap_bit(x) - 1) as u64)) == 0,
        next_same_pop_bits(x) == bits_above_gap(x) + gap_bit(x) + ((gap_bit(x) >> ((ctz(x)
            + 1) as u64)) - 1),
        gap_bit(x) >> ((ctz(x) + 1) as u64) == 1u64 << ((ctz(!fill_below(x)) - ctz(x)
            - 1) as u64),
{
}

/// `1 << k` is `2^k`.
pub proof fn lemma_shl_one(k: u64)
    requires
        k < 64,
    ensures
        (1u64 << k) as nat == pow2(k as nat),
{
    lemma_u64_pow2_no_overflow(k as nat);
    lemma_u64_shl_is_mul(1, k);
}

/// The bit formula gives the least greater number with as many ones.
pub proof fn lemma_next_same_pop_bits(x: u64)
    requires
        x != 0,
        fill_below(x) != 0xFFFF_FFFF_FFFF_FFFFu64,
    ensures
        ctz(x) < 63,
        gap_bit(x) >= 1,
        x < next_same_pop_bits(x),
        pop(next_same_pop_bits(x) as nat) == pop(x as nat),
        forall|m: nat|
            x < m < next_same_pop_bits(x) ==> #[trigger] pop(m) != pop(x as nat),
{
    lemma_gap_facts(x);
    let z = ctz(x);
    let p = ctz(!fill_below(x));
    let gap = gap_bit(x);
    let hi = bits_above_gap(x);
    lemma_shl_one(z);
    lemma_shl_one(p);
    lemma_shl_one((p - z - 1) as u64);
    lemma_pow2_pos(p as nat);
    assert(hi as nat % pow2(p as nat + 1) == 0) by {
        lemma_pow2_pos(p as nat + 1);
        if p < 63 {
            assert(gap | ((gap - 1) as u64) == (((1u64 << ((p + 1) as u64)) - 1) as u64))
                by (bit_vector)
                requires
                    p < 63,
                    gap == 1u64 << p,
            ;
            lemma_shl_one((p + 1) as u64);
            lemma_u64_pow2_no_overflow(p as nat + 1);
            lemma_pow2_pos(p as nat + 1);
            let mask = ((1u64 << ((p + 1) as u64)) - 1) as u64;
            assert(low_bits_mask(p as nat + 1) == mask as nat);
            assert(hi & mask == 0);
            lemma_u64_low_bits_mask_is_mod(hi, p as nat + 1);
            assert(hi % (pow2(p as nat + 1) as u64) == 0);
            assert((pow2(p as nat + 1) as u64) as nat == pow2(p as nat + 1));
        } else {
            assert(hi == 0) by (bit_vector)
                requires
                    p == 63,
                    gap == 1u64 << p,
                    hi & (gap | ((gap - 1) as u64)) == 0,
            ;
        }
    }
    lemma_pow2_pos(p as nat + 1);
    let a = hi as nat / pow2(p as nat + 1);
    lemma_fundamental_div_mod(hi as int, pow2(p as nat + 1) as int);
    assert(hi as nat == a * pow2(p as nat + 1)) by (nonlinear_arith)
        requires
            hi as int == pow2(p as nat + 1) * (hi as int / pow2(p as nat + 1) as int) + hi as int
                % pow2(p as nat + 1) as int,
            hi as nat % pow2(p as nat + 1) == 0,
            a == hi as nat / pow2(p as nat + 1),
    ;
    assert(x as nat == block_at(a, p as nat, z as nat));
    let shifted = gap >> ((z + 1) as u64);
    assert(shifted as nat == pow2((p - z - 1) as nat));
    lemma_pow2_pos((p - z - 1) as nat);
    assert(next_same_pop_bits(x) as nat == hi as nat + gap as nat + (shifted as nat - 1));
    assert(next_same_pop_bits(x) as nat == block_moved(a, p as nat, z as nat));
    lemma_block_moved_is_next(a, p as nat, z as nat);
}


/// When some greater 64-bit number has as many ones as `x`, then `x` is not 0
/// and its lowest block of ones does not reach the top bit.
pub proof fn lemma_not_greatest_of_pop(x: u64)
    requires
        exists|m: u64| x < m && pop(m as nat) == pop(x as nat),
    ensures
        x != 0,
        fill_below(x) != 0xFFFF_FFFF_FFFF_FFFFu64,
{
    let m = choose|m: u64| x < m && pop(m as nat) == pop(x as nat);
    lemma_pop_positive(m as nat);
    if x != 0 && fill_below(x) == 0xFFFF_FFFF_FFFF_FFFFu64 {
        let z = ctz(x);
        assert(z < 64 && x + (1u64 << z) == 0x1_0000_0000_0000_0000int) by (bit_vector)
            requires
                x != 0,
                fill_below(x) == 0xFFFF_FFFF_FFFF_FFFFu64,
                z == ctz(x),
        ;
        lemma_shl_one(z);
        lemma2_to64();
        let k = (64 - z) as nat;
        lemma_pow2_adds(k, z as nat);
        assert(high_ones(64, k) == x) by (nonlinear_arith)
            requires
                high_ones(64, k) == (pow2(k) - 1) * pow2(z as nat),
                pow2(64) == pow2(k) * pow2(z as nat),
                x + pow2(z as nat) == pow2(64),
                k + z == 64,
        ;
        lemma_high_ones(64, k);
        lemma_pop_greatest(m as nat, 64, k);
    }
}


/// The greatest `n`-bit number with at least one one has its top bit set.
pub proof fn lemma_high_ones_top(n: nat, k: nat)
    requires
        1 <= k <= n,
    ensures
        high_ones(n, k) >= pow2((n - 1) as nat),
{
    lemma_pow2_unfold(k);
    lemma_pow2_pos((k - 1) as nat);
    lemma_pow2_pos((n - k) as nat);
    lemma_pow2_adds((k - 1) as nat, (n - k) as nat);
    assert((k - 1) as nat + (n - k) as nat == (n - 1) as nat);
    assert(high_ones(n, k) >= pow2((n - 1) as nat)) by (nonlinear_arith)
        requires
            high_ones(n, k) == (pow2(k) - 1) * pow2((n - k) as nat),
            pow2(k) == 2 * pow2((k - 1) as nat),
            pow2((k - 1) as nat) >= 1,
            pow2((n - 1) as nat) == pow2((k - 1) as nat) * pow2((n - k) as nat),
    ;
}

/// Bitwise complement within a mask of low ones is subtraction from it.
pub proof fn lemma_complement_bits(x: u64, k: nat)
    requires
        k <= 64,
        x as nat <= low_ones(k),
    ensures
        (!x & (low_ones(k) as u64)) as nat == complement(x as nat, k),
{
    lemma2_to64();
    let f = low_ones(k) as u64;
    if k == 64 {
        assert(f == 0xFFFF_FFFF_FFFF_FFFFu64);
        assert(!x & f == f - x) by (bit_vector)
            requires
                f == 0xFFFF_FFFF_FFFF_FFFFu64,
        ;
    } else {
        lemma_shl_one(k as u64);
        lemma_pow2_pos(k);
        assert(f == ((1u64 << (k as u64)) - 1) as u64);
        let kk = k as u64;
        assert(!x & f == f - x) by (bit_vector)
            requires
                kk < 64,
                f == ((1u64 << kk) - 1) as u64,
                x <= f,
        ;
    }
}


/// Testing bit `i` with a shifted one.
pub proof fn lemma_bit_test(x: u64, i: u64)
    requires
        i < 64,
    ensures
        ((x & (1u64 << i)) != 0) == bit_set(x as nat, i as nat),
{
    assert(((x & (1u64 << i)) != 0) == ((x >> i) % 2 == 1)) by (bit_vector)
        requires
            i < 64,
    ;
    lemma_u64_shr_is_div(x, i);
}


/// Only one bit can be the lowest set bit: the one below which `n` is a
/// multiple of its power of two.
pub proof fn lemma_lowest_bit_unique(n: nat, r1: nat, r2: nat)
    requires
        n % pow2(r1) == 0,
        bit_set(n, r1),
        n % pow2(r2) == 0,
        bit_set(n, r2),
    ensures
        r1 == r2,
{
    if r1 != r2 {
        let (lo, hi) = if r1 < r2 {
            (r1, r2)
        } else {
            (r2, r1)
        };
        let d = (hi - lo) as nat;
        lemma_pow2_pos(lo);
        lemma_pow2_pos(hi);
        lemma_pow2_pos((d - 1) as nat);
        lemma_pow2_adds(lo, d);
        lemma_pow2_unfold(d);
        lemma_fundamental_div_mod(n as int, pow2(hi) as int);
        let q = n / pow2(hi);
        assert(n == (pow2(d) * q) * pow2(lo)) by (nonlinear_arith)
            requires
                n == pow2(hi) * q + 0,
                pow2(hi) == pow2(lo) * pow2(d),
        ;
        lemma_fundamental_div_mod_converse(
            n as int,
            pow2(lo) as int,
            (pow2(d) * q) as int,
            0,
        );
        assert(pow2(d) * q == 2 * (pow2((d - 1) as nat) * q)) by (nonlinear_arith)
            requires
                pow2(d) == 2 * pow2((d - 1) as nat),
        ;
        lemma_fundamental_div_mod_converse(
            (pow2(d) * q) as int,
            2,
            (pow2((d - 1) as nat) * q) as int,
            0,
        );
    }
}

} // verus!
