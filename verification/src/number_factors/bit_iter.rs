use vstd::prelude::*;

verus! {

use vstd::arithmetic::power2::{
    pow2, lemma2_to64, lemma_pow2_pos, lemma_pow2_unfold, lemma_pow2_strictly_increases,
};
use vstd::bits::lemma_u64_shl_is_mul;
use crate::number_factors::bit_math::{
    pop, bit_set, low_ones, high_ones, complement, ctz, next_same_pop_bits,
    lemma_ctz, lemma_shl_one, lemma_next_same_pop_bits, lemma_not_greatest_of_pop, lemma_high_ones,
    lemma_high_ones_top, lemma_complement_bits, lemma_pop_unfold, lemma_pop_greatest, lemma_pop_least,
    lemma_pop_low_ones, lemma_pop_complement, lemma_top_bit, lemma_pop_positive, lemma_pop_bound,
    lemma_lowest_bit_unique,
};
use vstd::arithmetic::div_mod::{lemma_small_mod, lemma_mod_self_0};
use crate::number_factors::combinations::{next_same_pop, lemma_next_same_pop_unique};
use crate::number_factors::split_math::lemma_split_or_complement;

/// Whether `m`, read as the set of positions of its one bits, is one of the
/// masks that `BitCombinationsIter` yields for a set of `size` elements.
///
/// The one bits of a mask pick the elements of `A` and the zero bits those of
/// `B`. For `size >= 2` these are the nonempty proper subsets with at most
/// half of the elements; when exactly half are picked, only the one of the
/// pair `{A, B}` that leaves the last element in `B` counts. For `size == 1`
/// the single split puts the one element in `A`.
pub open spec fn is_split_mask(size: nat, m: nat) -> bool {
    if size == 1 {
        m == 1
    } else {
        &&& 0 < m < pow2(size)
        &&& 2 * pop(m) <= size
        &&& 2 * pop(m) == size ==> !bit_set(m, (size - 1) as nat)
    }
}

/// The order in which the masks come: by number of ones, then by value.
pub open spec fn comes_before(a: nat, b: nat) -> bool {
    pop(a) < pop(b) || (pop(a) == pop(b) && a < b)
}

/// Whether `m` is a split of a `size`-element set that comes after `last`
/// (after nothing when `last` is `None`).
pub open spec fn split_after(size: nat, last: Option<nat>, m: nat) -> bool {
    &&& is_split_mask(size, m)
    &&& match last {
        Some(l) => comes_before(l, m),
        None => true,
    }
}

/// `m` comes first among the splits after `last`.
pub open spec fn first_split_after(size: nat, last: Option<nat>, m: nat) -> bool {
    &&& split_after(size, last, m)
    &&& forall|x: nat| #[trigger] split_after(size, last, x) ==> x == m || comes_before(m as nat, x)
}

/// The mask that picks only the first element is a split.
pub proof fn lemma_one_is_split(n: nat)
    requires
        1 <= n <= 64,
    ensures
        is_split_mask(n, 1),
{
    lemma2_to64();
    lemma_pop_unfold(1);
    lemma_pop_unfold(0);
    if n >= 2 {
        lemma_pow2_strictly_increases(1, n);
    }
}

/// For two or more elements both sides of a split are nonempty: some
/// element is picked and some is not.
pub proof fn lemma_split_sides_nonempty(n: nat, m: nat)
    requires
        n >= 2,
        is_split_mask(n, m),
    ensures
        0 < m < low_ones(n),
{
    lemma_pop_low_ones(n);
    lemma_pow2_pos(n);
}

/// The splits of a set of `size` elements, as a set of masks.
pub open spec fn split_masks(size: nat) -> Set<nat> {
    Set::new(|m: nat| is_split_mask(size, m))
}

/// How many splits come after `last` (after nothing when it is `None`).
pub open spec fn splits_after_count(size: nat, last: Option<nat>) -> nat {
    Set::new(|m: nat| split_after(size, last, m)).len()
}

/// The numbers below `b` form a finite set of `b` elements.
proof fn lemma_below_count(b: nat)
    ensures
        Set::new(|m: nat| m < b).finite(),
        Set::new(|m: nat| m < b).len() == b,
    decreases b,
{
    if b == 0 {
        assert(Set::new(|m: nat| m < b) =~= Set::<nat>::empty());
    } else {
        lemma_below_count((b - 1) as nat);
        assert(Set::new(|m: nat| m < b) =~= Set::new(|m: nat| m < (b - 1) as nat).insert(
            (b - 1) as nat,
        ));
    }
}

/// A set of `size >= 2` elements has `2^(size - 1) - 1` splits into two
/// nonempty parts: the `2^size - 2` nonempty proper subsets, taken in pairs
/// with their complements. One element has its single split.
pub proof fn lemma_split_count(size: nat)
    requires
        1 <= size <= 64,
    ensures
        split_masks(size).finite(),
        size == 1 ==> split_masks(size).len() == 1,
        size >= 2 ==> split_masks(size).len() == pow2((size - 1) as nat) - 1,
{
    let n = size;
    let s = split_masks(n);
    if n == 1 {
        assert(s =~= Set::<nat>::empty().insert(1));
    } else {
        lemma2_to64();
        lemma_pow2_unfold(n);
        lemma_pow2_pos((n - 1) as nat);
        let l = low_ones(n);
        let u = Set::new(|m: nat| 0 < m < l);
        lemma_below_count(l);
        assert(u =~= Set::new(|m: nat| m < l).remove(0));
        assert(s.subset_of(u)) by {
            assert forall|m: nat| s.contains(m) implies u.contains(m) by {
                lemma_split_sides_nonempty(n, m);
            }
        }
        vstd::set_lib::lemma_set_subset_finite(u, s);
        let f = |m: nat| complement(m, n);
        let c = s.map(f);
        assert(vstd::relations::injective_on(f, s)) by {
            assert forall|a: nat, b: nat|
                s.contains(a) && s.contains(b) && #[trigger] f(a) == #[trigger] f(b) implies a
                == b by {
                lemma_split_sides_nonempty(n, a);
                lemma_split_sides_nonempty(n, b);
            }
        }
        vstd::set_lib::lemma_map_size(s, c, f);
        assert(s.disjoint(c)) by {
            assert forall|x: nat| s.contains(x) implies !c.contains(x) by {
                if c.contains(x) {
                    let m = choose|m: nat| s.contains(m) && f(m) == x;
                    lemma_split_sides_nonempty(n, m);
                    crate::number_factors::split_math::lemma_split_or_complement(n, m);
                }
            }
        }
        assert(s + c =~= u) by {
            assert forall|x: nat| u.contains(x) implies (s + c).contains(x) by {
                crate::number_factors::split_math::lemma_split_or_complement(n, x);
                if !s.contains(x) {
                    assert(f(complement(x, n)) == x);
                    assert(s.contains(complement(x, n)));
                }
            }
            assert forall|x: nat| (s + c).contains(x) implies u.contains(x) by {
                if c.contains(x) {
                    let m = choose|m: nat| s.contains(m) && f(m) == x;
                    lemma_split_sides_nonempty(n, m);
                }
            }
        }
        vstd::set_lib::lemma_set_disjoint_lens(s, c);
    }
}

/// The splits after a split `last` are finitely many.
proof fn lemma_splits_after_finite(size: nat, last: Option<nat>)
    requires
        1 <= size <= 64,
    ensures
        Set::new(|m: nat| split_after(size, last, m)).finite(),
{
    lemma_split_count(size);
    vstd::set_lib::lemma_set_subset_finite(
        split_masks(size),
        Set::new(|m: nat| split_after(size, last, m)),
    );
}

/// Yielding the first split after `last` leaves one split fewer to come.
proof fn lemma_count_step(size: nat, last: Option<nat>, m: nat)
    requires
        1 <= size <= 64,
        first_split_after(size, last, m),
    ensures
        splits_after_count(size, Some(m)) + 1 == splits_after_count(size, last),
{
    let before = Set::new(|x: nat| split_after(size, last, x));
    let after = Set::new(|x: nat| split_after(size, Some(m), x));
    lemma_splits_after_finite(size, last);
    assert(after =~= before.remove(m)) by {
        assert forall|x: nat| after.contains(x) implies before.contains(x) && x != m by {
            match last {
                Some(l) => {},
                None => {},
            }
        }
        assert forall|x: nat| before.contains(x) && x != m implies after.contains(x) by {
            assert(split_after(size, last, x));
        }
    }
}

/// When no split comes after `last`, none is left to count.
proof fn lemma_count_none(size: nat, last: Option<nat>)
    ensures
        (forall|x: nat| !#[trigger] split_after(size, last, x)) ==> splits_after_count(size, last)
            == 0,
{
    if forall|x: nat| !#[trigger] split_after(size, last, x) {
        assert(Set::new(|x: nat| split_after(size, last, x)) =~= Set::<nat>::empty());
    }
}

/// From a split `prev` with `k` ones, the next number `new` with `k` ones is
/// the next split, unless half of the elements are picked and `new` is the
/// complement of `prev`: then `prev` was the last split.
proof fn lemma_step_same_pop(n: nat, k: nat, prev: nat, new: nat)
    requires
        2 <= n <= 64,
        is_split_mask(n, prev),
        pop(prev) == k,
        prev < new < pow2(n),
        pop(new) == k,
        forall|m: nat| prev < m < new ==> #[trigger] pop(m) != k,
    ensures
        2 * k != n ==> new != complement(prev, n),
        2 * k != n || new != complement(prev, n) ==> first_split_after(n, Some(prev), new),
        2 * k == n && new == complement(prev, n) ==> forall|x: nat|
            !#[trigger] split_after(n, Some(prev), x),
{
    lemma_pow2_unfold(n);
    lemma_pop_bound(prev, n);
    lemma_pop_complement(prev, n);
    lemma_top_bit(prev, n);
    lemma_top_bit(new, n);
    let half = pow2((n - 1) as nat);
    if 2 * k == n {
        let c = complement(prev, n);
        assert(prev < half);
        assert(c >= half);
        assert(new <= c) by {
            if new > c {
                assert(pop(c) != k);
            }
        }
        if new == c {
            assert forall|x: nat| !#[trigger] split_after(n, Some(prev), x) by {
                if split_after(n, Some(prev), x) {
                    lemma_top_bit(x, n);
                    assert(pop(x) != k);
                }
            }
        } else {
            assert(new < half) by {
                if new >= half {
                    let d = complement(new, n);
                    lemma_pop_complement(new, n);
                    assert(prev < d < new);
                    assert(pop(d) != k);
                }
            }
        }
    }
    if 2 * k != n || new != complement(prev, n) {
        assert forall|x: nat| #[trigger] split_after(n, Some(prev), x) implies x == new
            || comes_before(new, x) by {
            if pop(x) == k && x < new {
                assert(pop(x) != k);
            }
        }
    }
}

/// After the greatest split with `k` ones, the first split is the least
/// number with `k + 1` ones.
proof fn lemma_first_of_pop(n: nat, k: nat)
    requires
        2 <= n <= 64,
        1 <= k,
        2 * (k + 1) <= n,
    ensures
        first_split_after(n, Some(high_ones(n, k)), low_ones(k + 1)),
{
    let b = k + 1;
    let prev = high_ones(n, k);
    lemma_high_ones(n, k);
    lemma_pop_low_ones(b);
    lemma_pow2_pos(b);
    lemma_pow2_unfold(b);
    lemma_pow2_strictly_increases(b, (n - 1) as nat);
    lemma_pow2_unfold(n);
    lemma_top_bit(low_ones(b), n);
    assert forall|x: nat| #[trigger] split_after(n, Some(prev), x) implies x == low_ones(b)
        || comes_before(low_ones(b), x) by {
        if pop(x) == k {
            lemma_pop_greatest(x, n, k);
        }
        if pop(x) == b {
            lemma_pop_least(x, b);
        }
    }
}

/// Iterator over the ways to split a set of `size` elements into two disjoint
/// subsets `A` and `B` whose union is the whole set.
///
/// Each split is yielded once as a mask whose one bits pick `A`; `{A, B}` and
/// `{B, A}` count as one split. For `size >= 2` both subsets are nonempty;
/// for `size == 1` the single split leaves `B` empty. Masks come by number of
/// ones and, among those with as many ones, in increasing order.
pub struct BitCombinationsIter {
    bitcomb: u64,
    bitcomb_last: u64,
    bits: usize,
    size: usize,
    init_started: bool,
    check_half_last: bool,
}

impl BitCombinationsIter {
    /// Number of elements of the set being split.
    pub closed spec fn set_size(&self) -> nat {
        self.size as nat
    }

    /// The mask yielded last, if any was.
    pub closed spec fn last_yielded(&self) -> Option<nat> {
        if self.init_started {
            Some(self.bitcomb as nat)
        } else {
            None
        }
    }

    /// Whether the split `m` is still to be yielded.
    pub open spec fn yet_to_come(&self, m: nat) -> bool {
        split_after(self.set_size(), self.last_yielded(), m)
    }

    /// How many splits are still to be yielded.
    pub open spec fn splits_left(&self) -> nat {
        splits_after_count(self.set_size(), self.last_yielded())
    }

    /// The iterator has not yet run out.
    pub closed spec fn wf(&self) -> bool {
        &&& 1 <= self.size <= 64
        &&& 1 <= self.bits
        &&& self.size == 1 ==> self.bits == 1
        &&& self.size >= 2 ==> 2 * self.bits <= self.size
        &&& self.bitcomb_last as nat == high_ones(self.size as nat, self.bits as nat)
        &&& self.check_half_last == (self.size == 2 || (self.size >= 4 && self.bits == self.size
            / 2))
        &&& pop(self.bitcomb as nat) == self.bits
        &&& is_split_mask(self.size as nat, self.bitcomb as nat)
        &&& !self.init_started ==> self.bitcomb == 1
    }

    /// The mask yielded last is a split, and the set has at most 64
    /// elements.
    pub proof fn lemma_wf(&self)
        requires
            self.wf(),
        ensures
            1 <= self.set_size() <= 64,
            match self.last_yielded() {
                Some(l) => is_split_mask(self.set_size(), l),
                None => true,
            },
    {
    }

    /// Starts the splits of a set of `size` elements.
    pub fn new(size: usize) -> (it: Self)
        requires
            1 <= size <= 64,
        ensures
            it.wf(),
            it.set_size() == size,
            it.last_yielded() is None,
            it.splits_left() == split_masks(size as nat).len(),
            size >= 2 ==> it.splits_left() == pow2((size - 1) as nat) - 1,
            size == 1 ==> it.splits_left() == 1,
    {
        let it = Self {
            bitcomb: 1u64,
            bitcomb_last: bits_end_mask(size, 1usize),
            bits: 1usize,
            size,
            init_started: false,
            check_half_last: if size != 2 {
                false
            } else {
                true
            },
        };
        proof {
            lemma2_to64();
            lemma_pop_unfold(1);
            lemma_pop_unfold(0);
            if size >= 2 {
                lemma_pow2_strictly_increases(0, size as nat);
            }
            lemma_split_count(size as nat);
            assert(Set::new(|m: nat| split_after(size as nat, None, m)) =~= split_masks(
                size as nat,
            ));
        }
        it
    }

    /// The next split, or `None` once every split has been yielded.
    pub fn next(&mut self) -> (r: Option<u64>)
        requires
            old(self).wf(),
        ensures
            match r {
                Some(m) => {
                    &&& old(self).yet_to_come(m as nat)
                    &&& forall|x: nat|
                        #[trigger] old(self).yet_to_come(x) ==> x == m || comes_before(m as nat, x)
                    &&& final(self).wf()
                    &&& final(self).set_size() == old(self).set_size()
                    &&& final(self).last_yielded() == Some(m as nat)
                    &&& final(self).splits_left() + 1 == old(self).splits_left()
                },
                None => {
                    &&& forall|x: nat| !#[trigger] old(self).yet_to_come(x)
                    &&& old(self).splits_left() == 0
                },
            },
    {
        let ghost n = self.size as nat;
        let ghost prev = self.bitcomb as nat;
        let ghost k = self.bits as nat;
        proof {
            lemma2_to64();
            lemma_high_ones(n, k);
            lemma_pop_greatest(prev, n, k);
            lemma_count_none(n, old(self).last_yielded());
        }
        let ghost old_last = old(self).last_yielded();
        let bitcomb_half_last = if !self.check_half_last {
            None
        } else {
            Some(self.bitcomb)
        };
        if self.init_started {
            if self.bitcomb != self.bitcomb_last {
                self.bitcomb = next_bit_lex(self.bitcomb);
                proof {
                    let last = old(self).bitcomb_last as nat;
                    if self.bitcomb > old(self).bitcomb_last {
                        assert(pop(last) != pop(prev));
                    }
                    lemma_step_same_pop(n, k, prev, self.bitcomb as nat);
                }
            } else {
                if self.bits == 1 && self.size == 1 {
                    return None;
                }
                proof {
                    if 2 * k == n {
                        lemma_high_ones_top(n, k);
                        lemma_pow2_unfold(n);
                        lemma_top_bit(prev, n);
                    }
                    assert forall|x: nat| #[trigger] split_after(n, Some(prev), x) implies pop(x)
                        > k by {
                        if pop(x) == k {
                            lemma_pop_greatest(x, n, k);
                        }
                    }
                }
                self.bits += 1;
                if self.bits == self.size / 2 + 1 {
                    return None;
                } else if self.bits % (self.size / 2) == 0 {
                    self.check_half_last = true;
                }
                proof {
                    let b = self.bits as nat;
                    if b < n / 2 {
                        lemma_small_mod(b, n / 2);
                    } else if b == n / 2 {
                        lemma_mod_self_0((n / 2) as int);
                    }
                    lemma_first_of_pop(n, k);
                }
                self.bitcomb = bits_reach_start(self.bits);
                self.bitcomb_last = bits_end_mask(self.size, self.bits);
                proof {
                    lemma_pop_low_ones(self.bits as nat);
                }
            }
        } else {
            self.init_started = true;
            proof {
                lemma_pop_unfold(1);
                lemma_pop_unfold(0);
                assert forall|x: nat| #[trigger] split_after(n, None, x) implies x == 1
                    || comes_before(1, x) by {
                    if n >= 2 {
                        lemma_pop_positive(x);
                    }
                }
            }
        }
        proof {
            if first_split_after(n, old_last, self.bitcomb as nat) {
                lemma_count_step(n, old_last, self.bitcomb as nat);
            }
        }
        match bitcomb_half_last {
            None => Some(self.bitcomb),
            Some(last_bc) => {
                proof {
                    lemma_complement_bits(last_bc, n);
                }
                if self.bitcomb == !last_bc & bits_reach_start(self.size) {
                    None
                } else {
                    Some(self.bitcomb)
                }
            },
        }
    }
}

/// Index of the lowest set bit of `n`, or -1 when `n` is 0.
pub fn bsf(n: u64) -> (r: isize)
    ensures
        n == 0 ==> r == -1,
        n != 0 ==> 0 <= r < 64 && n as nat % pow2(r as nat) == 0 && bit_set(n as nat, r as nat),
{
    if n == 0 {
        return -1;
    }
    assert(!n < u64::MAX) by (bit_vector)
        requires
            n != 0,
    ;
    let nm = n & (!n + 1);
    let mut count: isize = 0;
    if nm & 0b1111111111111111111111111111111100000000000000000000000000000000 != 0 {
        count += 32
    }
    if nm & 0b1111111111111111000000000000000011111111111111110000000000000000 != 0 {
        count += 16
    }
    if nm & 0b1111111100000000111111110000000011111111000000001111111100000000 != 0 {
        count += 8
    }
    if nm & 0b1111000011110000111100001111000011110000111100001111000011110000 != 0 {
        count += 4
    }
    if nm & 0b1100110011001100110011001100110011001100110011001100110011001100 != 0 {
        count += 2
    }
    if nm & 0b1010101010101010101010101010101010101010101010101010101010101010 != 0 {
        count += 1
    }
    proof {
        lemma_ctz(n);
        assert(count == ctz(n));
    }
    count
}

/// The least number greater than `n` with as many one bits as `n`: the next
/// combination of the same size in lexicographic order.
pub fn next_bit_lex(n: u64) -> (r: u64)
    requires
        exists|m: u64| n < m && pop(m as nat) == pop(n as nat),
    ensures
        n < r,
        pop(r as nat) == pop(n as nat),
        forall|m: nat| n < m < r ==> #[trigger] pop(m) != pop(n as nat),
        r as nat == next_same_pop(n as nat),
{
    proof {
        lemma_not_greatest_of_pop(n);
    }
    let t = n | (n - 1);
    let shift = bsf(n) + 1;
    proof {
        lemma_next_same_pop_bits(n);
        lemma_ctz(n);
        lemma_lowest_bit_unique(n as nat, (shift - 1) as nat, ctz(n) as nat);
        assert(shift == ctz(n) + 1);
    }
    let r = (t + 1) | (((!t & (t + 1)) - 1) >> (shift as u64));
    proof {
        assert(r == next_same_pop_bits(n));
        lemma_next_same_pop_unique(n as nat, r as nat);
    }
    r
}

/// The mask of the lowest `bits` bits.
pub fn bits_reach_start(bits: usize) -> (r: u64)
    requires
        bits <= 64,
    ensures
        r as nat == low_ones(bits as nat),
{
    if bits == 64 {
        proof {
            lemma2_to64();
        }
        u64::MAX
    } else {
        proof {
            lemma_shl_one(bits as u64);
            lemma_pow2_pos(bits as nat);
        }
        (1u64 << (bits as u64)) - 1
    }
}

/// The mask of `bits` ones at the top of a `last_bit`-bit word.
pub fn bits_end_mask(last_bit: usize, bits: usize) -> (r: u64)
    requires
        bits <= last_bit <= 64,
    ensures
        r as nat == high_ones(last_bit as nat, bits as nat),
{
    let shift = last_bit - bits;
    if shift == 64 {
        proof {
            lemma2_to64();
            assert(low_ones(0) == 0);
            assert(high_ones(64, 0) == 0);
        }
        0
    } else {
        let ones = bits_reach_start(bits);
        proof {
            lemma_high_ones(last_bit as nat, bits as nat);
            lemma2_to64();
            if last_bit < 64 {
                lemma_pow2_strictly_increases(last_bit as nat, 64);
            }
            lemma_u64_shl_is_mul(ones, shift as u64);
        }
        ones << (shift as u64)
    }
}

/// The mask yielded before the `i`-th one of `ms`: nothing for the first.
pub open spec fn yielded_before(ms: Seq<nat>, i: int) -> Option<nat> {
    if i <= 0 {
        None
    } else {
        Some(ms[i - 1])
    }
}

/// `ms` is what a fresh `BitCombinationsIter` for a set of `size` elements
/// yields, in order, before its first `None`: by the contracts of `new` and
/// `next`, each mask is the first split after the one yielded before it, and
/// the `None` comes when no split follows the last one.
pub open spec fn is_split_run(size: nat, ms: Seq<nat>) -> bool {
    &&& forall|i: int|
        0 <= i < ms.len() ==> #[trigger] first_split_after(size, yielded_before(ms, i), ms[i])
    &&& forall|x: nat| !#[trigger] split_after(size, yielded_before(ms, ms.len() as int), x)
}

/// The order of the masks is transitive.
proof fn lemma_comes_before_trans(a: nat, b: nat, c: nat)
    requires
        comes_before(a, b),
        comes_before(b, c),
    ensures
        comes_before(a, c),
{
}

/// Along a run every mask comes after all those before it.
proof fn lemma_run_increases(size: nat, ms: Seq<nat>, i: int, j: int)
    requires
        is_split_run(size, ms),
        0 <= i < j < ms.len(),
    ensures
        comes_before(ms[i], ms[j]),
    decreases j - i,
{
    assert(first_split_after(size, yielded_before(ms, j), ms[j]));
    if i + 1 < j {
        lemma_run_increases(size, ms, i, j - 1);
        lemma_comes_before_trans(ms[i], ms[j - 1], ms[j]);
    }
}

/// A split that no mask of the first `i + 1` of a run equals comes after
/// the `i`-th.
proof fn lemma_run_passes(size: nat, ms: Seq<nat>, x: nat, i: int)
    requires
        is_split_run(size, ms),
        is_split_mask(size, x),
        0 <= i < ms.len(),
        forall|j: int| 0 <= j <= i ==> ms[j] != x,
    ensures
        comes_before(ms[i], x),
    decreases i,
{
    if i > 0 {
        lemma_run_passes(size, ms, x, i - 1);
    }
    assert(first_split_after(size, yielded_before(ms, i), ms[i]));
    assert(split_after(size, yielded_before(ms, i), x));
}

/// What a whole run of `BitCombinationsIter` yields: every split of the set
/// exactly once, in increasing order of `comes_before`, and so, for two or
/// more elements, `2^(size - 1) - 1` masks before the `None`; each mask
/// picks a nonempty proper subset of the set, and of a nonempty proper subset
/// and its complement exactly one is yielded. For one element the run is the
/// single mask 1.
pub proof fn lemma_split_run(size: nat, ms: Seq<nat>)
    requires
        1 <= size <= 64,
        is_split_run(size, ms),
    ensures
        forall|i: int, j: int| 0 <= i < j < ms.len() ==> comes_before(#[trigger] ms[i], #[trigger] ms[j]),
        ms.no_duplicates(),
        ms.to_set() == split_masks(size),
        size == 1 ==> ms == seq![1nat],
        size >= 2 ==> ms.len() == pow2((size - 1) as nat) - 1,
        size >= 2 ==> forall|i: int| 0 <= i < ms.len() ==> 0 < #[trigger] ms[i] < low_ones(size),
        size >= 2 ==> forall|m: nat|
            0 < m < low_ones(size) ==> #[trigger] ms.contains(m) != ms.contains(complement(m, size)),
{
    assert forall|i: int, j: int| 0 <= i < j < ms.len() implies comes_before(
        #[trigger] ms[i],
        #[trigger] ms[j],
    ) by {
        lemma_run_increases(size, ms, i, j);
    }
    assert forall|i: int| 0 <= i < ms.len() implies is_split_mask(size, #[trigger] ms[i]) by {
        assert(first_split_after(size, yielded_before(ms, i), ms[i]));
    }
    assert(ms.no_duplicates()) by {
        assert forall|i: int, j: int| 0 <= i < ms.len() && 0 <= j < ms.len() && i != j implies ms[i]
            != ms[j] by {
            if i < j {
                lemma_run_increases(size, ms, i, j);
            } else {
                lemma_run_increases(size, ms, j, i);
            }
        }
    }
    assert forall|x: nat| is_split_mask(size, x) implies #[trigger] ms.contains(x) by {
        if !ms.contains(x) {
            if ms.len() == 0 {
                assert(split_after(size, yielded_before(ms, 0), x));
            } else {
                lemma_run_passes(size, ms, x, ms.len() - 1);
                assert(split_after(size, yielded_before(ms, ms.len() as int), x));
            }
        }
    }
    assert(ms.to_set() =~= split_masks(size));
    ms.unique_seq_to_set();
    lemma_split_count(size);
    if size == 1 {
        assert(ms.len() == 1);
        assert(ms.contains(1));
        assert(ms =~= seq![1nat]);
    } else {
        assert forall|i: int| 0 <= i < ms.len() implies 0 < #[trigger] ms[i] < low_ones(size) by {
            lemma_split_sides_nonempty(size, ms[i]);
        }
        assert forall|m: nat| 0 < m < low_ones(size) implies #[trigger] ms.contains(m)
            != ms.contains(complement(m, size)) by {
            lemma_split_or_complement(size, m);
            assert(ms.contains(m) == ms.to_set().contains(m));
            assert(ms.contains(complement(m, size)) == ms.to_set().contains(complement(m, size)));
        }
    }
}

} // verus!
