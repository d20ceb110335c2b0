use vstd::prelude::*;

verus! {

use vstd::arithmetic::power2::{
    pow2, lemma2_to64, lemma_pow2_pos, lemma_pow2_unfold, lemma_pow2_strictly_increases,
};
use vstd::arithmetic::div_mod::{lemma_div_denominator, lemma_fundamental_div_mod_converse};
use vstd::arithmetic::mul::lemma_mul_is_commutative;
use crate::number_factors::bit_math::{
    bit_set, low_ones, complement, lemma_pop_bound, lemma_pop_complement, lemma_top_bit,
    lemma_pop_positive, lemma_pop_unfold,
};
use crate::number_factors::bit_iter::{is_split_mask, comes_before};
use crate::number_factors::factor_math::{product, is_prime, is_factor_list, lemma_euclid};

/// The elements of `fs` whose positions are set in `mask`, in order.
pub open spec fn picked(fs: Seq<u64>, mask: nat) -> Seq<u64>
    decreases fs.len(),
{
    if fs.len() == 0 {
        Seq::empty()
    } else if mask % 2 == 1 {
        seq![fs[0]] + picked(fs.drop_first(), mask / 2)
    } else {
        picked(fs.drop_first(), mask / 2)
    }
}

/// The elements of `fs` whose positions are clear in `mask`, in order.
pub open spec fn unpicked(fs: Seq<u64>, mask: nat) -> Seq<u64>
    decreases fs.len(),
{
    if fs.len() == 0 {
        Seq::empty()
    } else if mask % 2 == 0 {
        seq![fs[0]] + unpicked(fs.drop_first(), mask / 2)
    } else {
        unpicked(fs.drop_first(), mask / 2)
    }
}

/// `|a - b|`.
pub open spec fn abs_diff(a: nat, b: nat) -> nat {
    if a >= b {
        (a - b) as nat
    } else {
        (b - a) as nat
    }
}

/// How far apart the products of the two sides of the split `mask` are.
pub open spec fn split_diff(fs: Seq<u64>, mask: nat) -> nat {
    abs_diff(product(picked(fs, mask)), product(unpicked(fs, mask)))
}

/// The product of a one-element list is its element.
pub proof fn lemma_product_single(x: u64)
    ensures
        product(seq![x]) == x,
{
    assert(seq![x].drop_first() =~= Seq::<u64>::empty());
    assert(product(Seq::<u64>::empty()) == 1);
    assert(product(seq![x]) == (x as nat) * 1) by {
        assert(product(seq![x]) == (x as nat) * product(seq![x].drop_first()));
    }
}

/// The product of a concatenation is the product of the products.
pub proof fn lemma_product_concat(a: Seq<u64>, b: Seq<u64>)
    ensures
        product(a + b) == product(a) * product(b),
    decreases a.len(),
{
    if a.len() == 0 {
        assert(a + b =~= b);
        assert(product(a) == 1);
    } else {
        assert((a + b).drop_first() =~= a.drop_first() + b);
        assert((a + b)[0] == a[0]);
        lemma_product_concat(a.drop_first(), b);
        let x = a[0] as nat;
        let p = product(a.drop_first());
        let q = product(b);
        assert(product(a + b) == x * product(a.drop_first() + b));
        assert(product(a) == x * p);
        assert(x * (p * q) == (x * p) * q) by (nonlinear_arith);
    }
}

/// Both sides of a split multiply to the product of the whole list.
pub proof fn lemma_split_product(fs: Seq<u64>, mask: nat)
    ensures
        product(picked(fs, mask)) * product(unpicked(fs, mask)) == product(fs),
    decreases fs.len(),
{
    if fs.len() > 0 {
        lemma_split_product(fs.drop_first(), mask / 2);
        let x = fs[0] as nat;
        let p = product(picked(fs.drop_first(), mask / 2));
        let q = product(unpicked(fs.drop_first(), mask / 2));
        lemma_product_concat(seq![fs[0]], picked(fs.drop_first(), mask / 2));
        lemma_product_concat(seq![fs[0]], unpicked(fs.drop_first(), mask / 2));
        lemma_product_single(fs[0]);
        assert(product(fs) == x * product(fs.drop_first()));
        if mask % 2 == 1 {
            assert(picked(fs, mask) == seq![fs[0]] + picked(fs.drop_first(), mask / 2));
            assert(unpicked(fs, mask) == unpicked(fs.drop_first(), mask / 2));
            assert((x * p) * q == x * (p * q)) by (nonlinear_arith);
        } else {
            assert(unpicked(fs, mask) == seq![fs[0]] + unpicked(fs.drop_first(), mask / 2));
            assert(picked(fs, mask) == picked(fs.drop_first(), mask / 2));
            assert(p * (x * q) == x * (p * q)) by (nonlinear_arith);
        }
    } else {
        assert(picked(fs, mask) == Seq::<u64>::empty());
        assert(unpicked(fs, mask) == Seq::<u64>::empty());
        assert(product(Seq::<u64>::empty()) == 1);
    }
}

/// Every element of either side is an element of the list.
pub proof fn lemma_split_elements(fs: Seq<u64>, mask: nat)
    ensures
        forall|i: int|
            0 <= i < picked(fs, mask).len() ==> fs.contains(#[trigger] picked(fs, mask)[i]),
        forall|i: int|
            0 <= i < unpicked(fs, mask).len() ==> fs.contains(#[trigger] unpicked(fs, mask)[i]),
        picked(fs, mask).len() + unpicked(fs, mask).len() == fs.len(),
    decreases fs.len(),
{
    if fs.len() > 0 {
        let rest = fs.drop_first();
        lemma_split_elements(rest, mask / 2);
        assert forall|i: int| 0 <= i < picked(fs, mask).len() implies fs.contains(
            #[trigger] picked(fs, mask)[i],
        ) by {
            if mask % 2 == 1 && i == 0 {
                assert(fs[0] == picked(fs, mask)[0]);
            } else {
                let j = if mask % 2 == 1 {
                    i - 1
                } else {
                    i
                };
                assert(picked(fs, mask)[i] == picked(rest, mask / 2)[j]);
                let k = choose|k: int| 0 <= k < rest.len() && rest[k] == picked(rest, mask / 2)[j];
                assert(fs[k + 1] == rest[k]);
            }
        }
        assert forall|i: int| 0 <= i < unpicked(fs, mask).len() implies fs.contains(
            #[trigger] unpicked(fs, mask)[i],
        ) by {
            if mask % 2 == 0 && i == 0 {
                assert(fs[0] == unpicked(fs, mask)[0]);
            } else {
                let j = if mask % 2 == 0 {
                    i - 1
                } else {
                    i
                };
                assert(unpicked(fs, mask)[i] == unpicked(rest, mask / 2)[j]);
                let k = choose|k: int|
                    0 <= k < rest.len() && rest[k] == unpicked(rest, mask / 2)[j];
                assert(fs[k + 1] == rest[k]);
            }
        }
    }
}

/// Picking by the complement of a mask swaps the two sides.
pub proof fn lemma_split_complement(fs: Seq<u64>, mask: nat)
    requires
        mask < pow2(fs.len()),
    ensures
        picked(fs, complement(mask, fs.len())) == unpicked(fs, mask),
        unpicked(fs, complement(mask, fs.len())) == picked(fs, mask),
    decreases fs.len(),
{
    if fs.len() > 0 {
        let n = fs.len();
        let c = complement(mask, n);
        lemma_pow2_unfold(n);
        lemma_pow2_pos((n - 1) as nat);
        let h = complement(mask / 2, (n - 1) as nat);
        lemma_fundamental_div_mod_converse(mask as int, 2, (mask / 2) as int, (mask % 2) as int);
        assert(c == 2 * h + (1 - mask % 2));
        lemma_fundamental_div_mod_converse(c as int, 2, h as int, (1 - mask % 2) as int);
        lemma_split_complement(fs.drop_first(), mask / 2);
    }
}

/// Splitting a prefix one element longer adds that element to the side
/// its bit picks.
pub proof fn lemma_split_take(fs: Seq<u64>, mask: nat, i: nat)
    requires
        i < fs.len(),
    ensures
        picked(fs.take(i as int + 1), mask) == if bit_set(mask, i) {
            picked(fs.take(i as int), mask).push(fs[i as int])
        } else {
            picked(fs.take(i as int), mask)
        },
        unpicked(fs.take(i as int + 1), mask) == if bit_set(mask, i) {
            unpicked(fs.take(i as int), mask)
        } else {
            unpicked(fs.take(i as int), mask).push(fs[i as int])
        },
    decreases i,
{
    lemma2_to64();
    if i == 0 {
        assert(fs.take(0) =~= Seq::<u64>::empty());
        assert(fs.take(1).drop_first() =~= Seq::<u64>::empty());
        assert(picked(Seq::<u64>::empty(), mask / 2) == Seq::<u64>::empty());
        assert(unpicked(Seq::<u64>::empty(), mask / 2) == Seq::<u64>::empty());
        assert(mask / pow2(0) == mask);
    } else {
        let rest = fs.drop_first();
        assert(fs.take(i as int + 1).drop_first() =~= rest.take(i as int));
        assert(fs.take(i as int).drop_first() =~= rest.take(i as int - 1));
        assert(rest[i as int - 1] == fs[i as int]);
        lemma_split_take(rest, mask / 2, (i - 1) as nat);
        lemma_pow2_unfold(i);
        lemma_pow2_pos((i - 1) as nat);
        lemma_div_denominator(mask as int, 2, pow2((i - 1) as nat) as int);
        assert(bit_set(mask, i) == bit_set(mask / 2, (i - 1) as nat));
        assert(fs.take(i as int + 1)[0] == fs[0]);
        assert(fs.take(i as int)[0] == fs[0]);
        if mask % 2 == 1 {
            assert(picked(fs.take(i as int + 1), mask) == seq![fs[0]] + picked(
                rest.take(i as int),
                mask / 2,
            ));
            assert(seq![fs[0]] + picked(rest.take(i as int - 1), mask / 2).push(fs[i as int])
                =~= (seq![fs[0]] + picked(rest.take(i as int - 1), mask / 2)).push(fs[i as int]));
        } else {
            assert(unpicked(fs.take(i as int + 1), mask) == seq![fs[0]] + unpicked(
                rest.take(i as int),
                mask / 2,
            ));
            assert(seq![fs[0]] + unpicked(rest.take(i as int - 1), mask / 2).push(fs[i as int])
                =~= (seq![fs[0]] + unpicked(rest.take(i as int - 1), mask / 2)).push(
                fs[i as int],
            ));
        }
    }
}

/// Every way of writing the product of a list of 1s and primes as `a * b`
/// comes from a split of the list.
pub proof fn lemma_divisor_is_split(fs: Seq<u64>, a: nat, b: nat) -> (mask: nat)
    requires
        forall|i: int| 0 <= i < fs.len() ==> #[trigger] fs[i] == 1 || is_prime(fs[i] as nat),
        a * b == product(fs),
    ensures
        mask < pow2(fs.len()),
        product(picked(fs, mask)) == a,
        product(unpicked(fs, mask)) == b,
    decreases fs.len(),
{
    lemma2_to64();
    if fs.len() == 0 {
        assert(a * b == 1);
        assert(a == 1 && b == 1) by (nonlinear_arith)
            requires
                a * b == 1,
        ;
        assert(picked(fs, 0) == Seq::<u64>::empty());
        assert(unpicked(fs, 0) == Seq::<u64>::empty());
        assert(product(Seq::<u64>::empty()) == 1);
        0
    } else {
        let q = fs[0] as nat;
        let rest = fs.drop_first();
        let r = product(rest);
        assert(product(fs) == q * r);
        assert forall|i: int| 0 <= i < rest.len() implies #[trigger] rest[i] == 1 || is_prime(
            rest[i] as nat,
        ) by {
            assert(rest[i] == fs[i + 1]);
        }
        lemma_pow2_unfold(fs.len());
        if q == 1 {
            assert(a * b == r) by (nonlinear_arith)
                requires
                    a * b == q * r,
                    q == 1,
            ;
            let m = lemma_divisor_is_split(rest, a, b);
            let mask = 2 * m;
            lemma_fundamental_div_mod_converse(mask as int, 2, m as int, 0);
            assert(unpicked(fs, mask) == seq![fs[0]] + unpicked(rest, m));
            assert(picked(fs, mask) == picked(rest, m));
            lemma_product_concat(seq![fs[0]], unpicked(rest, m));
            lemma_product_single(fs[0]);
            assert(product(unpicked(fs, mask)) == b);
            mask
        } else {
            assert(is_prime(q));
            assert(a * b == q * r);
            lemma_mul_is_commutative(q as int, r as int);
            vstd::arithmetic::div_mod::lemma_mod_multiples_basic(r as int, q as int);
            lemma_euclid(a, b, q);
            if a % q == 0 {
                let a2 = a / q;
                vstd::arithmetic::div_mod::lemma_fundamental_div_mod(a as int, q as int);
                assert(a2 * b == r) by (nonlinear_arith)
                    requires
                        a == q * a2,
                        a * b == q * r,
                        q >= 2,
                ;
                let m = lemma_divisor_is_split(rest, a2, b);
                let mask = 2 * m + 1;
                lemma_fundamental_div_mod_converse(mask as int, 2, m as int, 1);
                assert(picked(fs, mask) == seq![fs[0]] + picked(rest, m));
                assert(unpicked(fs, mask) == unpicked(rest, m));
                lemma_product_concat(seq![fs[0]], picked(rest, m));
                lemma_product_single(fs[0]);
                assert(product(picked(fs, mask)) == q * a2);
                mask
            } else {
                let b2 = b / q;
                vstd::arithmetic::div_mod::lemma_fundamental_div_mod(b as int, q as int);
                assert(a * b2 == r) by (nonlinear_arith)
                    requires
                        b == q * b2,
                        a * b == q * r,
                        q >= 2,
                ;
                let m = lemma_divisor_is_split(rest, a, b2);
                let mask = 2 * m;
                lemma_fundamental_div_mod_converse(mask as int, 2, m as int, 0);
                assert(unpicked(fs, mask) == seq![fs[0]] + unpicked(rest, m));
                assert(picked(fs, mask) == picked(rest, m));
                lemma_product_concat(seq![fs[0]], unpicked(rest, m));
                lemma_product_single(fs[0]);
                assert(product(unpicked(fs, mask)) == q * b2);
                mask
            }
        }
    }
}


/// `m` is the split whose two sides are closest, and the first such split in
/// the order the splits come.
pub open spec fn is_first_closest_split(fs: Seq<u64>, m: nat) -> bool {
    &&& is_split_mask(fs.len(), m)
    &&& forall|x: nat| #[trigger]
        is_split_mask(fs.len(), x) ==> split_diff(fs, m) <= split_diff(fs, x)
    &&& forall|x: nat|
        is_split_mask(fs.len(), x) && #[trigger] comes_before(x, m) ==> split_diff(fs, m)
            < split_diff(fs, x)
}

/// Of a nonempty proper subset and its complement, exactly one is a split
/// that the iterator yields: each way to split the set into two nonempty
/// parts comes exactly once.
pub proof fn lemma_split_or_complement(n: nat, s: nat)
    requires
        2 <= n <= 64,
        0 < s < low_ones(n),
    ensures
        is_split_mask(n, s) != is_split_mask(n, complement(s, n)),
{
    lemma2_to64();
    lemma_pow2_unfold(n);
    lemma_pow2_pos(n);
    lemma_pop_bound(s, n);
    lemma_pop_complement(s, n);
    lemma_pop_positive(s);
    lemma_top_bit(s, n);
    lemma_top_bit(complement(s, n), n);
}

/// Nothing is picked by the empty mask.
proof fn lemma_split_empty_mask(fs: Seq<u64>)
    ensures
        picked(fs, 0) == Seq::<u64>::empty(),
        unpicked(fs, 0) == fs,
    decreases fs.len(),
{
    if fs.len() > 0 {
        lemma_split_empty_mask(fs.drop_first());
        assert(fs =~= seq![fs[0]] + fs.drop_first());
    }
}

/// The split that puts only the leading element on one side.
proof fn lemma_split_first_only(fs: Seq<u64>)
    requires
        fs.len() >= 1,
    ensures
        picked(fs, 1) == seq![fs[0]],
        unpicked(fs, 1) == fs.drop_first(),
{
    lemma_split_empty_mask(fs.drop_first());
    assert(seq![fs[0]] + Seq::<u64>::empty() =~= seq![fs[0]]);
}

/// The split found is as close as any way of writing the product of the
/// factors as `a * b`.
pub proof fn lemma_first_closest_is_closest(fs: Seq<u64>, m: nat, a: nat, b: nat)
    requires
        is_factor_list(fs),
        2 <= fs.len() <= 64,
        is_first_closest_split(fs, m),
        a * b == product(fs),
    ensures
        product(picked(fs, m)) * product(unpicked(fs, m)) == product(fs),
        split_diff(fs, m) <= abs_diff(a, b),
{
    lemma2_to64();
    let n = fs.len();
    lemma_split_product(fs, m);
    assert forall|i: int| 0 <= i < fs.len() implies #[trigger] fs[i] == 1 || is_prime(
        fs[i] as nat,
    ) by {}
    let s = lemma_divisor_is_split(fs, a, b);
    if is_split_mask(n, s) {
        assert(split_diff(fs, s) == abs_diff(a, b));
    } else if s == 0 || s == low_ones(n) {
        // Only the leading 1 on one side: the sides are 1 and the product.
        lemma_split_first_only(fs);
        lemma_product_single(fs[0]);
        assert(product(fs) == 1 * product(fs.drop_first()));
        lemma_pow2_unfold(n);
        lemma_pop_unfold(1);
        lemma_pop_unfold(0);
        lemma_pow2_strictly_increases(1, n);
        assert(is_split_mask(n, 1));
        assert(split_diff(fs, 1) == abs_diff(1, product(fs)));
        lemma_split_empty_mask(fs);
        assert(product(Seq::<u64>::empty()) == 1);
        if s == 0 {
            assert(a == 1);
        } else {
            lemma_split_complement(fs, s);
            assert(complement(s, n) == 0);
            assert(b == 1);
            assert(a == product(fs)) by (nonlinear_arith)
                requires
                    a * b == product(fs),
                    b == 1,
            ;
        }
    } else {
        lemma_split_or_complement(n, s);
        let c = complement(s, n);
        lemma_split_complement(fs, s);
        assert(split_diff(fs, c) == abs_diff(a, b));
    }
}


/// The two sides of a split together hold each factor exactly as often as
/// the list does: their union is the list and they share nothing.
pub proof fn lemma_split_is_partition(fs: Seq<u64>, mask: nat)
    ensures
        picked(fs, mask).to_multiset().add(unpicked(fs, mask).to_multiset()) =~= fs.to_multiset(),
    decreases fs.len(),
{
    broadcast use vstd::multiset::group_multiset_axioms;

    if fs.len() == 0 {
        assert(picked(fs, mask) =~= Seq::<u64>::empty());
        assert(unpicked(fs, mask) =~= Seq::<u64>::empty());
        assert(fs =~= Seq::<u64>::empty());
        vstd::seq_lib::lemma_multiset_commutative(fs, fs);
        assert(fs + fs =~= fs);
    } else {
        let rest = fs.drop_first();
        let head = seq![fs[0]];
        lemma_split_is_partition(rest, mask / 2);
        assert(fs =~= head + rest);
        vstd::seq_lib::lemma_multiset_commutative(head, rest);
        if mask % 2 == 1 {
            vstd::seq_lib::lemma_multiset_commutative(head, picked(rest, mask / 2));
        } else {
            vstd::seq_lib::lemma_multiset_commutative(head, unpicked(rest, mask / 2));
        }
    }
}

} // verus!
