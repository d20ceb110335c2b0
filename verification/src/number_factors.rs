pub mod bit_iter;
pub mod bit_math;
pub mod combinations;
pub mod factor_math;
pub mod split_math;
pub mod utils;

use vstd::prelude::*;

verus! {

use crate::number_factors::factor_math::{
    product, divides, is_prime, is_factor_list, is_prime_factorization, divide_out, copies,
    lemma_product_push, lemma_product_positive, lemma_divides_trans,
    lemma_prime_when_no_small_divisor, lemma_prime_below_square, lemma_factor_list_len,
    lemma_product_prefix, lemma_divisor_le, is_prime_run, lemma_prime_run_exists,
};
use crate::number_factors::utils::{next_possible_prime, next_possible_prime_spec};
use crate::number_factors::bit_math::{pop, lemma_bit_test, lemma_pop_bound};
use crate::number_factors::bit_iter::{
    BitCombinationsIter, is_split_mask, comes_before, lemma_one_is_split,
};
use crate::number_factors::split_math::{
    picked, unpicked, abs_diff, split_diff, is_first_closest_split, lemma_split_take,
    lemma_split_product, lemma_split_elements, lemma_first_closest_is_closest,
    lemma_product_concat,
};
use vstd::arithmetic::power2::{pow2, lemma2_to64, lemma_pow2_strictly_increases};
use vstd::arithmetic::div_mod::{
    lemma_fundamental_div_mod, lemma_mod_multiples_basic, lemma_mod_self_0, lemma_small_mod,
    lemma_div_multiples_vanish,
};
use vstd::arithmetic::mul::lemma_mul_is_commutative;

/// Where a calculation stands.
#[derive(Copy, Clone, Debug, PartialEq, Eq, Structural)]
pub enum CalcOperations {
    StartedFactors,
    StartedIntegerMult,
    Finished,
    Cancelled,
}

/// Trial division of a number, one candidate divisor at a time.
///
/// The divisor 2 is taken out first; then the candidates run through 3 and
/// the odd numbers that 3 does not divide, each taken out as often as it
/// divides what is left. Once the candidate times 3 reaches what is left,
/// what is left is prime and ends the search.
pub struct FactorSearch {
    number: u64,
    divisor: u64,
    left: u64,
    factors: Vec<u64>,
}

impl FactorSearch {
    /// The number being factored.
    pub closed spec fn spec_number(&self) -> u64 {
        self.number
    }

    /// The factors found so far: 1, then primes in nondecreasing order.
    pub closed spec fn spec_factors(&self) -> Seq<u64> {
        self.factors@
    }

    /// What is left to factor: the number divided by the factors found.
    pub closed spec fn spec_left(&self) -> u64 {
        self.left
    }

    /// The next candidate divisor.
    pub closed spec fn spec_divisor(&self) -> u64 {
        self.divisor
    }

    /// The search has no candidate left to try.
    pub open spec fn spec_finished(&self) -> bool {
        !(self.spec_divisor() <= self.spec_left() && self.spec_left() != 1)
    }

    /// How much work is left, as a number that each step lowers.
    pub open spec fn work_left(&self) -> nat {
        if self.spec_finished() {
            0
        } else {
            (2 * self.spec_left() - self.spec_divisor()) as nat
        }
    }

    /// The invariant of the search.
    pub closed spec fn wf(&self) -> bool {
        &&& self.number >= 1
        &&& self.left >= 1
        &&& is_factor_list(self.factors@)
        &&& product(self.factors@) * self.left == self.number
        &&& self.divisor >= 3
        &&& self.divisor % 2 == 1
        &&& self.divisor == 3 || self.divisor % 3 != 0
        &&& forall|d: nat| 2 <= d < self.divisor ==> #[trigger] (self.left as nat % d) != 0
        &&& self.left != 1 ==> forall|i: int|
            1 <= i < self.factors@.len() ==> #[trigger] self.factors@[i] < self.divisor
        &&& !self.spec_finished() ==> (self.divisor == 3 || 3 * self.divisor < self.left)
    }

    /// What a valid search tells of the number: the factors found times what
    /// is left is the number; every prime below the next candidate has been
    /// taken out as often as it divides the number, so the factors found lead
    /// the whole factorization, whose other primes are not below the
    /// candidate; and once finished nothing is left.
    pub proof fn lemma_wf(&self)
        requires
            self.wf(),
        ensures
            self.spec_number() >= 1,
            is_factor_list(self.spec_factors()),
            product(self.spec_factors()) * self.spec_left() == self.spec_number(),
            forall|d: nat| 2 <= d < self.spec_divisor() ==> #[trigger] (self.spec_left() as nat % d) != 0,
            self.spec_left() != 1 ==> forall|i: int|
                1 <= i < self.spec_factors().len() ==> #[trigger] self.spec_factors()[i]
                    < self.spec_divisor(),
            exists|g: Seq<u64>|
                is_prime_run(g, self.spec_divisor() as nat) && #[trigger] is_prime_factorization(
                    self.spec_factors() + g,
                    self.spec_number() as nat,
                ),
            self.spec_finished() ==> self.spec_left() == 1,
    {
        if self.spec_finished() && self.left != 1 {
            lemma_mod_self_0(self.left as int);
            assert(self.left as nat % self.left as nat == 0);
        }
        let fs = self.factors@;
        let g = lemma_prime_run_exists(self.left as nat, self.divisor as nat);
        let all = fs + g;
        lemma_product_concat(fs, g);
        assert forall|i: int| 1 <= i < all.len() implies is_prime(#[trigger] all[i] as nat) by {
            if i >= fs.len() {
                assert(all[i] == g[i - fs.len()]);
            }
        }
        assert forall|i: int, j: int| 1 <= i <= j < all.len() implies all[i] <= all[j] by {
            if j >= fs.len() {
                assert(all[j] == g[j - fs.len()]);
                if i >= fs.len() {
                    assert(all[i] == g[i - fs.len()]);
                } else {
                    assert(g.len() > 0);
                    assert(all[i] < self.divisor);
                }
            }
        }
        assert(is_prime_factorization(all, self.number as nat));
    }

    /// Starts the search on `number` and takes out every factor 2.
    pub fn start(number: u64) -> (s: Self)
        requires
            number != 0,
        ensures
            s.wf(),
            s.spec_number() == number,
            s.spec_divisor() == 3,
            s.spec_factors() == seq![1u64] + copies(divide_out(number as nat, 2).0, 2),
            s.spec_left() == divide_out(number as nat, 2).1,
    {
        let mut factors: Vec<u64> = vec![1u64];
        let mut number_div_left = number;
        let number_div = 2u64;
        proof {
            assert(factors@ =~= seq![1u64]);
            assert(factors@ =~= seq![1u64] + copies(0, 2));
            assert(factors@.drop_first() =~= Seq::<u64>::empty());
            assert(product(factors@) == 1 * product(factors@.drop_first()));
        }
        while number_div_left % number_div == 0
            invariant
                number_div == 2,
                number_div_left >= 1,
                number_div_left <= number,
                factors@.len() >= 1,
                factors@[0] == 1,
                forall|i: int| 1 <= i < factors@.len() ==> #[trigger] factors@[i] == 2,
                product(factors@) * number_div_left == number,
                factors@ == seq![1u64] + copies((factors@.len() - 1) as nat, 2),
                divide_out(number as nat, 2) == ((factors@.len() - 1 + divide_out(
                    number_div_left as nat,
                    2,
                ).0) as nat, divide_out(number_div_left as nat, 2).1),
            decreases number_div_left,
        {
            let ghost before = factors@;
            proof {
                lemma_product_push(factors@, 2);
                lemma_fundamental_div_mod(number_div_left as int, 2);
            }
            factors.push(number_div);
            number_div_left = number_div_left / number_div;
            proof {
                assert(product(factors@) * number_div_left == number) by (nonlinear_arith)
                    requires
                        product(factors@) == product(before) * 2,
                        product(before) * (2 * number_div_left) == number,
                ;
                assert(factors@ =~= seq![1u64] + copies((factors@.len() - 1) as nat, 2));
            }
        }
        let s = FactorSearch { number, divisor: 3, left: number_div_left, factors };
        proof {
            assert(is_prime(2));
            assert forall|d: nat| 2 <= d < 3 implies #[trigger] (number_div_left as nat % d)
                != 0 by {
                assert(d == 2);
            }
        }
        s
    }

    /// Whether the search is over.
    pub fn is_finished(&self) -> (r: bool)
        ensures
            r == self.spec_finished(),
    {
        !(self.divisor <= self.left && self.left != 1)
    }

    /// The number being factored.
    pub fn number(&self) -> (r: u64)
        ensures
            r == self.spec_number(),
    {
        self.number
    }

    /// The next candidate divisor.
    pub fn divisor(&self) -> (r: u64)
        ensures
            r == self.spec_divisor(),
    {
        self.divisor
    }

    /// What is left to factor.
    pub fn remaining(&self) -> (r: u64)
        ensures
            r == self.spec_left(),
    {
        self.left
    }

    /// The factors found so far.
    pub fn factors(&self) -> (r: &Vec<u64>)
        ensures
            r@ == self.spec_factors(),
    {
        &self.factors
    }

    /// Takes the current candidate out of what is left as often as it
    /// divides it, moves to the next candidate, and ends the search when what
    /// is left must be prime.
    pub fn step(&mut self)
        requires
            old(self).wf(),
            !old(self).spec_finished(),
        ensures
            final(self).wf(),
            final(self).spec_number() == old(self).spec_number(),
            final(self).work_left() < old(self).work_left(),
            ({
                let d = old(self).spec_divisor();
                let (k, rest) = divide_out(old(self).spec_left() as nat, d as nat);
                let next = next_possible_prime_spec(d as int);
                let prime_rest = 3 * next >= rest && rest != 1;
                &&& final(self).spec_factors() == old(self).spec_factors() + copies(k, d) + if prime_rest {
                    seq![rest as u64]
                } else {
                    Seq::empty()
                }
                &&& final(self).spec_left() == if prime_rest {
                    1
                } else {
                    rest
                }
                &&& final(self).spec_divisor() == if prime_rest {
                    rest as int
                } else {
                    next
                }
            }),
    {
        let ghost number = self.number;
        let ghost start_factors = self.factors@;
        let mut number_div_left = self.left;
        let mut number_div = self.divisor;
        while number_div_left % number_div == 0
            invariant
                self.number == number,
                number >= 1,
                number_div == old(self).divisor,
                number_div >= 3,
                number_div <= old(self).left,
                number_div == 3 || 3 * number_div < old(self).left,
                1 <= number_div_left <= old(self).left,
                is_factor_list(self.factors@),
                product(self.factors@) * number_div_left == number,
                forall|d: nat| 2 <= d < number_div ==> #[trigger] (number_div_left as nat % d) != 0,
                forall|i: int| 1 <= i < self.factors@.len() ==> #[trigger] self.factors@[i] <= number_div,
                self.factors@.len() >= start_factors.len(),
                self.factors@ == start_factors + copies(
                    (self.factors@.len() - start_factors.len()) as nat,
                    number_div,
                ),
                divide_out(old(self).left as nat, number_div as nat) == ((self.factors@.len()
                    - start_factors.len() + divide_out(number_div_left as nat, number_div as nat).0) as nat,
                    divide_out(number_div_left as nat, number_div as nat).1),
            decreases number_div_left,
        {
            let ghost before = self.factors@;
            let ghost left = number_div_left as nat;
            let ghost div = number_div as nat;
            proof {
                lemma_fundamental_div_mod(left as int, div as int);
                assert forall|d: nat| 2 <= d < div implies #[trigger] (div % d) != 0 by {
                    if div % d == 0 {
                        lemma_divides_trans(left, div, d);
                    }
                }
                lemma_prime_when_no_small_divisor(div);
                lemma_product_push(before, number_div);
            }
            self.factors.push(number_div);
            number_div_left = number_div_left / number_div;
            proof {
                let q = number_div_left as nat;
                assert(left == div * q);
                assert(q >= 1) by (nonlinear_arith)
                    requires
                        left == div * q,
                        left >= 1,
                ;
                assert(q < left) by (nonlinear_arith)
                    requires
                        left == div * q,
                        div >= 3,
                        q >= 1,
                ;
                assert(product(self.factors@) * q == number) by (nonlinear_arith)
                    requires
                        product(self.factors@) == product(before) * div,
                        product(before) * left == number,
                        left == div * q,
                ;
                lemma_mul_is_commutative(div as int, q as int);
                lemma_mod_multiples_basic(div as int, q as int);
                assert forall|d: nat| 2 <= d < div implies #[trigger] (q % d) != 0 by {
                    if q % d == 0 {
                        lemma_divides_trans(left, q, d);
                    }
                }
                let j = (before.len() - start_factors.len()) as nat;
                assert(before == start_factors + copies(j, number_div));
                assert(self.factors@ == before.push(number_div));
                assert(copies(j + 1, number_div) =~= copies(j, number_div).push(number_div));
                assert(self.factors@ =~= start_factors + copies(j + 1, number_div));
            }
        }
        let ghost old_div = number_div as nat;
        let ghost left = number_div_left as nat;
        number_div = next_possible_prime(number_div);
        proof {
            assert forall|d: nat| 2 <= d < number_div implies #[trigger] (left % d) != 0 by {
                if d > old_div && left % d == 0 {
                    assert(d % 2 == 0 || d % 3 == 0);
                    if d % 2 == 0 {
                        lemma_divides_trans(left, d, 2);
                    } else {
                        lemma_divides_trans(left, d, 3);
                    }
                }
            }
        }
        if (number_div as u128) * 3 >= number_div_left as u128 && number_div_left != 1 {
            let ghost before = self.factors@;
            proof {
                let div = number_div as nat;
                assert(div * div > left) by (nonlinear_arith)
                    requires
                        div >= 5,
                        3 * div >= left,
                ;
                lemma_prime_below_square(left, div);
                lemma_mod_self_0(left as int);
                lemma_product_push(before, number_div_left);
            }
            number_div = number_div_left;
            number_div_left = 1;
            self.factors.push(number_div);
            proof {
                assert(product(self.factors@) * 1 == number);
                assert forall|d: nat| 2 <= d < number_div implies #[trigger] (1nat % d) != 0 by {
                    lemma_small_mod(1, d);
                }
                assert(self.factors@ =~= before + seq![number_div]);
            }
        }
        self.left = number_div_left;
        self.divisor = number_div;
    }
}

/// A number and the factors found of it.
pub struct NumberFactors {
    number: u64,
    factors: Vec<u64>,
    pub status: CalcOperations,
}

impl NumberFactors {
    /// The number.
    pub closed spec fn spec_number(&self) -> u64 {
        self.number
    }

    /// Its factors found: 1, then primes in nondecreasing order.
    pub closed spec fn spec_factors(&self) -> Seq<u64> {
        self.factors@
    }

    /// Where the calculation stands.
    pub closed spec fn spec_status(&self) -> CalcOperations {
        self.status
    }

    /// The factors found multiply to a divisor of the number.
    pub closed spec fn wf(&self) -> bool {
        &&& self.number >= 1
        &&& is_factor_list(self.factors@)
        &&& divides(product(self.factors@), self.number as nat)
    }

    /// Factors `number` into primes.
    pub fn new(number: u64) -> (nf: Self)
        requires
            number != 0,
        ensures
            nf.wf(),
            nf.spec_number() == number,
            is_prime_factorization(nf.spec_factors(), number as nat),
            nf.spec_status() == CalcOperations::StartedIntegerMult,
    {
        let mut search = FactorSearch::start(number);
        while !search.is_finished()
            invariant
                search.wf(),
                search.spec_number() == number,
            decreases search.work_left(),
        {
            search.step();
        }
        NumberFactors::from_search(search, false)
    }

    /// The result of a factor search, finished or cancelled.
    pub fn from_search(search: FactorSearch, cancelled: bool) -> (nf: Self)
        requires
            search.wf(),
            !cancelled ==> search.spec_finished(),
        ensures
            nf.wf(),
            nf.spec_number() == search.spec_number(),
            nf.spec_factors() == search.spec_factors(),
            nf.spec_status() == (if cancelled {
                CalcOperations::Cancelled
            } else {
                CalcOperations::StartedIntegerMult
            }),
            !cancelled ==> is_prime_factorization(nf.spec_factors(), nf.spec_number() as nat),
            exists|g: Seq<u64>|
                is_prime_run(g, search.spec_divisor() as nat) && #[trigger] is_prime_factorization(
                    nf.spec_factors() + g,
                    nf.spec_number() as nat,
                ),
            forall|d: nat|
                2 <= d < search.spec_divisor() ==> #[trigger] ((nf.spec_number() as nat / product(
                    nf.spec_factors(),
                )) % d) != 0,
            product(nf.spec_factors()) != nf.spec_number() ==> forall|i: int|
                1 <= i < nf.spec_factors().len() ==> #[trigger] nf.spec_factors()[i]
                    < search.spec_divisor(),
    {
        proof {
            search.lemma_wf();
            let fs = search.spec_factors();
            assert forall|i: int| 0 <= i < fs.len() implies #[trigger] fs[i] >= 1 by {
                if i >= 1 {
                    assert(is_prime(fs[i] as nat));
                }
            }
            lemma_product_positive(fs);
            lemma_mul_is_commutative(product(fs) as int, search.spec_left() as int);
            lemma_mod_multiples_basic(search.spec_left() as int, product(fs) as int);
            lemma_div_multiples_vanish(search.spec_left() as int, product(fs) as int);
            assert(search.spec_number() as nat / product(fs) == search.spec_left());
        }
        let status = if cancelled {
            CalcOperations::Cancelled
        } else {
            CalcOperations::StartedIntegerMult
        };
        NumberFactors { number: search.number, factors: search.factors, status }
    }

    /// The number.
    pub fn number(&self) -> (r: u64)
        ensures
            r == self.spec_number(),
    {
        self.number
    }

    /// Its factors found.
    pub fn factors(&self) -> (r: &Vec<u64>)
        ensures
            r@ == self.spec_factors(),
    {
        &self.factors
    }

    /// Splits the factors into two groups whose products `a` and `b` are as
    /// close as possible: `a * b` is the number and `|a - b|` is at a
    /// minimum. Of equally close splits the first one tried is kept.
    pub fn calculate_smallest(&self) -> (r: SmallestSplit)
        requires
            self.wf(),
        ensures
            self.spec_number() == 1 ==> is_split_of_one(r),
            self.spec_number() != 1 ==> exists|m: nat|
                is_first_closest_split(self.spec_factors(), m) && is_split_of(
                    self.spec_factors(),
                    m,
                    r,
                ),
            is_prime_factorization(self.spec_factors(), self.spec_number() as nat) ==> {
                &&& r.lhs * r.rhs == self.spec_number()
                &&& r.abs_diff == abs_diff(r.lhs as nat, r.rhs as nat)
                &&& forall|a: nat, b: nat|
                    a * b == self.spec_number() ==> r.abs_diff <= #[trigger] abs_diff(a, b)
            },
    {
        let mut search = SplitSearch::new(self);
        while !search.is_done()
            invariant
                search.wf(),
                search.spec_number() == self.spec_number(),
                search.spec_factors() == self.spec_factors(),
            decreases search.work_left(),
        {
            search.step();
        }
        let ghost m = search.spec_best_mask();
        let r = search.into_best();
        proof {
            let fs = self.factors@;
            let n = self.number as nat;
            if is_prime_factorization(fs, n) {
                if n == 1 {
                    assert forall|a: nat, b: nat| a * b == n implies r.abs_diff <= #[trigger] abs_diff(
                        a,
                        b,
                    ) by {}
                } else {
                    lemma_divisor_le(product(fs), n);
                    lemma_factor_list_len(fs);
                    if fs.len() == 1 {
                        assert(fs.drop_first() =~= Seq::<u64>::empty());
                        assert(product(Seq::<u64>::empty()) == 1);
                        assert(product(fs) == 1 * product(fs.drop_first()));
                    }
                    lemma_split_product(fs, m);
                    assert forall|a: nat, b: nat| a * b == n implies r.abs_diff <= #[trigger] abs_diff(
                        a,
                        b,
                    ) by {
                        lemma_first_closest_is_closest(fs, m, a, b);
                    }
                }
            }
        }
        r
    }
}


/// Two groups of factors, their products, and how far apart these are.
pub struct SmallestSplit {
    pub abs_diff: u64,
    pub lhs: u64,
    pub rhs: u64,
    pub lhs_factors: Vec<u64>,
    pub rhs_factors: Vec<u64>,
}

/// `r` describes the split `mask` of the factors `fs`: the picked factors
/// on the left, the others on the right.
pub open spec fn is_split_of(fs: Seq<u64>, mask: nat, r: SmallestSplit) -> bool {
    &&& r.lhs_factors@ == picked(fs, mask)
    &&& r.rhs_factors@ == unpicked(fs, mask)
    &&& r.lhs == product(picked(fs, mask))
    &&& r.rhs == product(unpicked(fs, mask))
    &&& r.abs_diff == split_diff(fs, mask)
}

/// The answer for the number 1: `1 * 1`.
pub open spec fn is_split_of_one(r: SmallestSplit) -> bool {
    &&& r.abs_diff == 0
    &&& r.lhs == 1
    &&& r.rhs == 1
    &&& r.lhs_factors@ == seq![1u64]
    &&& r.rhs_factors@ == seq![1u64]
}

/// The factors whose positions are set in `mask` and those whose positions
/// are clear.
fn split_by_mask(factors: &Vec<u64>, mask: u64) -> (res: (Vec<u64>, Vec<u64>))
    requires
        factors.len() <= 64,
    ensures
        res.0@ == picked(factors@, mask as nat),
        res.1@ == unpicked(factors@, mask as nat),
{
    let mut v1: Vec<u64> = Vec::new();
    let mut v2: Vec<u64> = Vec::new();
    let mut i: usize = 0;
    proof {
        assert(factors@.take(0) =~= Seq::<u64>::empty());
    }
    while i < factors.len()
        invariant
            i <= factors.len() <= 64,
            v1@ == picked(factors@.take(i as int), mask as nat),
            v2@ == unpicked(factors@.take(i as int), mask as nat),
        decreases factors.len() - i,
    {
        proof {
            lemma_bit_test(mask, i as u64);
            lemma_split_take(factors@, mask as nat, i as nat);
        }
        if mask & (1u64 << (i as u64)) != 0 {
            v1.push(factors[i]);
        } else {
            v2.push(factors[i]);
        }
        i += 1;
    }
    proof {
        assert(factors@.take(factors.len() as int) =~= factors@);
    }
    (v1, v2)
}

/// The product of the numbers of `v`.
fn multiply_all(v: &Vec<u64>) -> (r: u64)
    requires
        product(v@) <= u64::MAX,
        forall|i: int| 0 <= i < v.len() ==> #[trigger] v[i] >= 1,
    ensures
        r == product(v@),
{
    let mut res: u64 = 1;
    let mut j: usize = 0;
    proof {
        assert(v@.take(0) =~= Seq::<u64>::empty());
    }
    while j < v.len()
        invariant
            j <= v.len(),
            product(v@) <= u64::MAX,
            forall|i: int| 0 <= i < v.len() ==> #[trigger] v[i] >= 1,
            res == product(v@.take(j as int)),
        decreases v.len() - j,
    {
        proof {
            assert(v@.take(j as int + 1) =~= v@.take(j as int).push(v[j as int]));
            lemma_product_push(v@.take(j as int), v[j as int]);
            lemma_product_prefix(v@, j as int + 1);
        }
        res = res * v[j];
        j += 1;
    }
    proof {
        assert(v@.take(v.len() as int) =~= v@);
    }
    res
}

/// The search over the splits of a list of factors for the one whose two
/// products are closest, one split at a time.
pub struct SplitSearch {
    number: u64,
    factors: Vec<u64>,
    iter: BitCombinationsIter,
    current: u64,
    best: SmallestSplit,
    best_mask: Ghost<nat>,
    done: bool,
}

impl SplitSearch {
    /// The number whose factors are split.
    pub closed spec fn spec_number(&self) -> u64 {
        self.number
    }

    /// The factors being split.
    pub closed spec fn spec_factors(&self) -> Seq<u64> {
        self.factors@
    }

    /// Whether every split has been tried.
    pub closed spec fn spec_done(&self) -> bool {
        self.done
    }

    /// The closest split so far.
    pub closed spec fn spec_best(&self) -> SmallestSplit {
        self.best
    }

    /// The mask of the closest split so far.
    pub closed spec fn spec_best_mask(&self) -> nat {
        self.best_mask@
    }

    /// The split tried last.
    pub closed spec fn spec_current(&self) -> u64 {
        self.current
    }

    /// The closest split so far is the closest of those tried, and the first
    /// tried of equally close ones.
    pub open spec fn best_of_tried(&self) -> bool {
        &&& self.tried(self.spec_best_mask())
        &&& is_split_of(self.spec_factors(), self.spec_best_mask(), self.spec_best())
        &&& forall|x: nat| #[trigger]
            self.tried(x) ==> self.spec_best().abs_diff <= split_diff(self.spec_factors(), x)
        &&& forall|x: nat|
            self.tried(x) && #[trigger] comes_before(x, self.spec_best_mask())
                ==> self.spec_best().abs_diff < split_diff(self.spec_factors(), x)
    }

    /// Whether the split `x` has been tried.
    pub closed spec fn tried(&self, x: nat) -> bool {
        &&& is_split_mask(self.factors@.len(), x)
        &&& self.done || match self.iter.last_yielded() {
            Some(l) => x == l || comes_before(x, l),
            None => false,
        }
    }

    /// How much work is left, as a number that each step lowers.
    pub closed spec fn work_left(&self) -> nat {
        if self.done {
            0
        } else {
            match self.iter.last_yielded() {
                Some(l) => (65 * pow2(64) - (pop(l) * pow2(64) + l)) as nat,
                None => (65 * pow2(64)) as nat,
            }
        }
    }

    /// The invariant of the search.
    pub closed spec fn wf(&self) -> bool {
        &&& self.number >= 1
        &&& is_factor_list(self.factors@)
        &&& divides(product(self.factors@), self.number as nat)
        &&& 1 <= self.factors@.len() <= 64
        &&& self.number == 1 ==> self.done && is_split_of_one(self.best)
        &&& self.number != 1 ==> {
            &&& !self.done ==> self.iter.wf() && self.iter.set_size() == self.factors@.len()
            &&& if !self.done && self.iter.last_yielded() is None {
                self.best.abs_diff == u64::MAX
            } else {
                self.best_of_tried()
            }
        }
    }

    /// Starts the search over the splits of the factors of `nf`.
    pub fn new(nf: &NumberFactors) -> (s: Self)
        requires
            nf.wf(),
        ensures
            s.wf(),
            s.spec_number() == nf.spec_number(),
            s.spec_factors() == nf.spec_factors(),
            s.spec_current() == 0,
            s.spec_done() == (nf.spec_number() == 1),
            s.spec_number() != 1 ==> forall|x: nat| !#[trigger] s.tried(x),
            s.spec_number() != 1 ==> {
                &&& s.spec_best().abs_diff == u64::MAX
                &&& s.spec_best().lhs == 1
                &&& s.spec_best().rhs == 1
                &&& s.spec_best().lhs_factors@ == Seq::<u64>::empty()
                &&& s.spec_best().rhs_factors@ == Seq::<u64>::empty()
            },
            s.spec_number() == 1 ==> is_split_of_one(s.spec_best()),
    {
        let factors = nf.factors.clone();
        proof {
            let fs = factors@;
            lemma_divisor_le(product(fs), nf.number as nat);
            lemma_factor_list_len(fs);
        }
        let bc_iter = BitCombinationsIter::new(factors.len());
        if nf.number != 1 {
            SplitSearch {
                number: nf.number,
                factors,
                iter: bc_iter,
                current: 0,
                best: SmallestSplit {
                    abs_diff: u64::MAX,
                    lhs: 1,
                    rhs: 1,
                    lhs_factors: Vec::new(),
                    rhs_factors: Vec::new(),
                },
                best_mask: Ghost(0),
                done: false,
            }
        } else {
            let lhs_factors = vec![1u64];
            let rhs_factors = vec![1u64];
            proof {
                assert(lhs_factors@ =~= seq![1u64]);
                assert(rhs_factors@ =~= seq![1u64]);
            }
            SplitSearch {
                number: nf.number,
                factors,
                iter: bc_iter,
                current: 0,
                best: SmallestSplit { abs_diff: 0, lhs: 1, rhs: 1, lhs_factors, rhs_factors },
                best_mask: Ghost(0),
                done: true,
            }
        }
    }

    /// Whether every split has been tried.
    pub fn is_done(&self) -> (r: bool)
        ensures
            r == self.spec_done(),
    {
        self.done
    }

    /// The split tried last, as a mask over the factors (0 before the
    /// first).
    pub fn current_mask(&self) -> (r: u64)
        ensures
            r == self.spec_current(),
    {
        self.current
    }

    /// The closest split so far.
    pub fn best(&self) -> (r: &SmallestSplit)
        ensures
            *r == self.spec_best(),
    {
        &self.best
    }

    /// Tries the next split and keeps it when its two products are closer
    /// than those of every split tried before.
    pub fn step(&mut self)
        requires
            old(self).wf(),
            !old(self).spec_done(),
        ensures
            final(self).wf(),
            final(self).spec_number() == old(self).spec_number(),
            final(self).spec_factors() == old(self).spec_factors(),
            final(self).work_left() < old(self).work_left(),
            final(self).spec_done() ==> forall|x: nat| #[trigger]
                final(self).tried(x) == is_split_mask(old(self).spec_factors().len(), x),
            !final(self).spec_done() ==> {
                let m = final(self).spec_current() as nat;
                &&& is_split_mask(old(self).spec_factors().len(), m)
                &&& !old(self).tried(m)
                &&& forall|x: nat|
                    is_split_mask(old(self).spec_factors().len(), x) && !#[trigger] old(self).tried(x)
                        ==> x == m || comes_before(m, x)
                &&& forall|x: nat| #[trigger] final(self).tried(x) == (old(self).tried(x) || x == m)
            },
            final(self).spec_number() != 1 ==> final(self).best_of_tried(),
    {
        let ghost fs = self.factors@;
        let ghost n = fs.len();
        let ghost last = self.iter.last_yielded();
        proof {
            lemma2_to64();
            lemma_one_is_split(n);
            lemma_divisor_le(product(fs), self.number as nat);
            lemma_factor_list_len(fs);
            self.iter.lemma_wf();
            if let Some(l) = last {
                if n < 64 {
                    lemma_pow2_strictly_increases(n, 64);
                }
                lemma_pop_bound(l, 64);
            }
        }
        match self.iter.next() {
            None => {
                self.done = true;
                proof {
                    if last is None {
                        assert(old(self).iter.yet_to_come(1));
                    }
                    assert(last is Some);
                    assert forall|x: nat| #[trigger] self.tried(x) implies old(self).tried(x) by {
                        assert(!old(self).iter.yet_to_come(x));
                    }
                }
            },
            Some(num_vec) => {
                let ghost m = num_vec as nat;
                proof {
                    lemma_pop_bound(m, 64);
                    lemma_split_product(fs, m);
                    lemma_split_elements(fs, m);
                    let p1 = product(picked(fs, m));
                    let p2 = product(unpicked(fs, m));
                    assert forall|i: int| 0 <= i < picked(fs, m).len() implies #[trigger] picked(
                        fs,
                        m,
                    )[i] >= 1 by {
                        assert(fs.contains(picked(fs, m)[i]));
                    }
                    assert forall|i: int| 0 <= i < unpicked(fs, m).len() implies #[trigger] unpicked(
                        fs,
                        m,
                    )[i] >= 1 by {
                        assert(fs.contains(unpicked(fs, m)[i]));
                    }
                    lemma_product_positive(picked(fs, m));
                    lemma_product_positive(unpicked(fs, m));
                    assert(p1 <= product(fs) && p2 <= product(fs)) by (nonlinear_arith)
                        requires
                            p1 * p2 == product(fs),
                            p1 >= 1,
                            p2 >= 1,
                    ;
                }
                self.current = num_vec;
                let (v1, v2) = split_by_mask(&self.factors, num_vec);
                let v1_res = multiply_all(&v1);
                let v2_res = multiply_all(&v2);
                let diff = if v1_res >= v2_res {
                    v1_res - v2_res
                } else {
                    v2_res - v1_res
                };
                if diff < self.best.abs_diff {
                    self.best = SmallestSplit {
                        abs_diff: diff,
                        lhs: v1_res,
                        rhs: v2_res,
                        lhs_factors: v1,
                        rhs_factors: v2,
                    };
                    self.best_mask = Ghost(m);
                }
                proof {
                    assert forall|x: nat|
                        is_split_mask(n, x) && !#[trigger] old(self).tried(x) implies x == m
                        || comes_before(m, x) by {
                        assert(old(self).iter.yet_to_come(x));
                    }
                    assert forall|x: nat| #[trigger] self.tried(x) implies old(self).tried(x) || x
                        == m by {
                        if !old(self).tried(x) && x != m {
                            assert(old(self).iter.yet_to_come(x));
                        }
                    }
                    assert forall|x: nat| #[trigger] self.tried(x) implies self.best.abs_diff
                        <= split_diff(fs, x) by {
                        if x != m {
                            assert(old(self).tried(x));
                        }
                    }
                    assert forall|x: nat|
                        self.tried(x) && #[trigger] comes_before(
                            x,
                            self.best_mask@,
                        ) implies self.best.abs_diff < split_diff(fs, x) by {
                        if x != m {
                            assert(old(self).tried(x));
                        } else if self.best_mask@ != m {
                            assert(old(self).tried(self.best_mask@));
                        }
                    }
                    assert(self.tried(self.best_mask@)) by {
                        if self.best_mask@ != m {
                            assert(old(self).tried(self.best_mask@));
                        }
                    }
                }
            },
        }
    }

    /// The closest split, once every split has been tried.
    pub fn into_best(self) -> (r: SmallestSplit)
        requires
            self.wf(),
            self.spec_done(),
        ensures
            self.spec_number() == 1 ==> is_split_of_one(r),
            self.spec_number() != 1 ==> is_first_closest_split(
                self.spec_factors(),
                self.spec_best_mask(),
            ),
            self.spec_number() != 1 ==> is_split_of(self.spec_factors(), self.spec_best_mask(), r),
    {
        proof {
            if self.number != 1 {
                let fs = self.factors@;
                assert forall|x: nat| #[trigger] is_split_mask(fs.len(), x) implies split_diff(
                    fs,
                    self.best_mask@,
                ) <= split_diff(fs, x) by {
                    assert(self.tried(x));
                }
                assert forall|x: nat|
                    is_split_mask(fs.len(), x) && #[trigger] comes_before(
                        x,
                        self.best_mask@,
                    ) implies split_diff(fs, self.best_mask@) < split_diff(fs, x) by {
                    assert(self.tried(x));
                }
                assert(is_first_closest_split(fs, self.best_mask@));
                assert(is_split_of(fs, self.best_mask@, self.best));
            }
        }
        self.best
    }
}

} // verus!