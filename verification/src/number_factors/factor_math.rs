use vstd::prelude::*;

verus! {

use vstd::arithmetic::div_mod::{
    lemma_fundamental_div_mod, lemma_mod_multiples_basic, lemma_small_mod, lemma_mod_bound,
    lemma_mul_mod_noop_left, lemma_mul_mod_noop_right, lemma_div_decreases, lemma_mod_self_0,
};
use vstd::arithmetic::mul::lemma_mul_is_commutative;
use vstd::arithmetic::power2::{pow2, lemma2_to64, lemma_pow2_unfold, lemma_pow2_strictly_increases};

/// Product of the numbers of `s`, taken from the front.
pub open spec fn product(s: Seq<u64>) -> nat
    decreases s.len(),
{
    if s.len() == 0 {
        1
    } else {
        (s[0] as nat) * product(s.drop_first())
    }
}

/// `d` divides `n`.
pub open spec fn divides(d: nat, n: nat) -> bool {
    d > 0 && n % d == 0
}

/// `n` with the factor `d` taken out as often as it divides it: the pair
/// `(k, rest)` with `n == d^k * rest` and `d` not dividing `rest`.
pub open spec fn divide_out(n: nat, d: nat) -> (nat, nat)
    decreases n,
{
    if d >= 2 && n > 0 && n % d == 0 {
        proof {
            lemma_div_decreases(n as int, d as int);
        }
        let (k, rest) = divide_out(n / d, d);
        (k + 1, rest)
    } else {
        (0, n)
    }
}

/// `k` copies of `d`.
pub open spec fn copies(k: nat, d: u64) -> Seq<u64> {
    Seq::new(k, |i: int| d)
}

/// `p` is a prime number.
pub open spec fn is_prime(p: nat) -> bool {
    &&& p >= 2
    &&& forall|d: nat| 2 <= d < p ==> #[trigger] (p % d) != 0
}

/// The shape of a list of factors: a leading 1 and then primes in
/// nondecreasing order.
pub open spec fn is_factor_list(fs: Seq<u64>) -> bool {
    &&& fs.len() >= 1
    &&& fs[0] == 1
    &&& forall|i: int| 1 <= i < fs.len() ==> is_prime(#[trigger] fs[i] as nat)
    &&& forall|i: int, j: int| 1 <= i <= j < fs.len() ==> fs[i] <= fs[j]
}

/// `fs` is the prime factorization of `n`, led by 1.
pub open spec fn is_prime_factorization(fs: Seq<u64>, n: nat) -> bool {
    is_factor_list(fs) && product(fs) == n
}

/// Appending a number multiplies the product by it.
pub proof fn lemma_product_push(s: Seq<u64>, x: u64)
    ensures
        product(s.push(x)) == product(s) * x,
    decreases s.len(),
{
    if s.len() == 0 {
        assert(s.push(x).drop_first() =~= Seq::<u64>::empty());
        assert(product(Seq::<u64>::empty()) == 1);
        assert(product(s.push(x)) == (x as nat) * product(s.push(x).drop_first()));
        assert(product(s) == 1);
    } else {
        assert(s.push(x).drop_first() =~= s.drop_first().push(x));
        assert(s.push(x)[0] == s[0]);
        lemma_product_push(s.drop_first(), x);
        let a = s[0] as nat;
        let b = product(s.drop_first());
        assert(product(s.push(x)) == a * (b * x));
        assert(product(s) == a * b);
        assert(a * (b * x) == (a * b) * x) by (nonlinear_arith);
    }
}

/// The product of a list of positive numbers is positive.
pub proof fn lemma_product_positive(s: Seq<u64>)
    requires
        forall|i: int| 0 <= i < s.len() ==> #[trigger] s[i] >= 1,
    ensures
        product(s) >= 1,
    decreases s.len(),
{
    if s.len() > 0 {
        lemma_product_positive(s.drop_first());
        assert(s[0] >= 1);
        assert(s[0] * product(s.drop_first()) >= 1) by (nonlinear_arith)
            requires
                s[0] >= 1,
                product(s.drop_first()) >= 1,
        ;
    }
}

/// Divisibility is transitive.
pub proof fn lemma_divides_trans(a: nat, b: nat, c: nat)
    requires
        divides(b, a),
        divides(c, b),
    ensures
        divides(c, a),
{
    lemma_fundamental_div_mod(a as int, b as int);
    lemma_fundamental_div_mod(b as int, c as int);
    let q = a / b;
    let r = b / c;
    assert(a == c * (r * q)) by (nonlinear_arith)
        requires
            a == b * q,
            b == c * r,
    ;
    lemma_mul_is_commutative(c as int, (r * q) as int);
    lemma_mod_multiples_basic((r * q) as int, c as int);
}

/// A number at least 2 that no number in `[2, n)` divides is prime.
pub proof fn lemma_prime_when_no_small_divisor(n: nat)
    requires
        n >= 2,
        forall|d: nat| 2 <= d < n ==> #[trigger] (n % d) != 0,
    ensures
        is_prime(n),
{
}

/// When `d * d > n` and no number in `[2, d)` divides `n >= 2`, `n` is prime.
pub proof fn lemma_prime_below_square(n: nat, d: nat)
    requires
        n >= 2,
        d * d > n,
        forall|e: nat| 2 <= e < d ==> #[trigger] (n % e) != 0,
    ensures
        is_prime(n),
{
    assert forall|e: nat| 2 <= e < n implies #[trigger] (n % e) != 0 by {
        if n % e == 0 && e >= d {
            lemma_fundamental_div_mod(n as int, e as int);
            let q = n / e;
            assert(n == e * q);
            assert(q >= 2) by (nonlinear_arith)
                requires
                    n == e * q,
                    e < n,
            ;
            assert(q < n) by (nonlinear_arith)
                requires
                    n == e * q,
                    e >= 2,
                    n >= 2,
            ;
            lemma_mul_is_commutative(e as int, q as int);
            lemma_mod_multiples_basic(e as int, q as int);
            assert(n % q == 0);
            if q < d {
            } else {
                assert(e * q >= d * d) by (nonlinear_arith)
                    requires
                        e >= d,
                        q >= d,
                ;
            }
        }
    }
}

/// Euclid's lemma for a factor already reduced below the prime.
proof fn lemma_euclid_reduced(a: nat, b: nat, p: nat)
    requires
        is_prime(p),
        0 < a < p,
        (a * b) % p == 0,
    ensures
        b % p == 0,
    decreases a,
{
    if a == 1 {
        assert(a * b == b) by (nonlinear_arith)
            requires
                a == 1,
        ;
    } else {
        let q = p / a;
        let r = p % a;
        lemma_fundamental_div_mod(p as int, a as int);
        lemma_mod_bound(p as int, a as int);
        assert(r != 0) by {
            assert(p % a != 0);
        }
        // r * b = p * b - q * (a * b), and p divides both terms.
        assert(r * b == p * b - q * (a * b)) by (nonlinear_arith)
            requires
                p == a * q + r,
        ;
        lemma_mod_multiples_basic(b as int, p as int);
        lemma_mul_is_commutative(b as int, p as int);
        lemma_mul_mod_noop_right(q as int, (a * b) as int, p as int);
        assert((q * (a * b)) % p == 0) by {
            assert((q * ((a * b) % p)) == 0);
            lemma_small_mod(0, p);
        }
        let x = (p * b) as int;
        let y = (q * (a * b)) as int;
        lemma_fundamental_div_mod(x, p as int);
        lemma_fundamental_div_mod(y, p as int);
        let kx = x / (p as int);
        let ky = y / (p as int);
        assert(x - y == (kx - ky) * p) by (nonlinear_arith)
            requires
                x == p * kx + 0,
                y == p * ky + 0,
        ;
        lemma_mod_multiples_basic(kx - ky, p as int);
        assert((r * b) % p == 0);
        lemma_euclid_reduced(r, b, p);
    }
}

/// Euclid's lemma: a prime that divides a product divides one of its
/// factors.
pub proof fn lemma_euclid(a: nat, b: nat, p: nat)
    requires
        is_prime(p),
        (a * b) % p == 0,
    ensures
        a % p == 0 || b % p == 0,
{
    if a % p != 0 {
        lemma_mod_bound(a as int, p as int);
        lemma_mul_mod_noop_left(a as int, b as int, p as int);
        lemma_euclid_reduced(a % p, b, p);
    }
}


/// A list of numbers at least 2 has a product of at least `2^len`.
pub proof fn lemma_product_at_least_pow2(s: Seq<u64>)
    requires
        forall|i: int| 0 <= i < s.len() ==> #[trigger] s[i] >= 2,
    ensures
        product(s) >= pow2(s.len()),
    decreases s.len(),
{
    if s.len() == 0 {
        lemma2_to64();
    } else {
        assert(forall|i: int| 0 <= i < s.len() - 1 ==> #[trigger] s.drop_first()[i] == s[i + 1]);
        lemma_product_at_least_pow2(s.drop_first());
        lemma_pow2_unfold(s.len());
        assert(s[0] >= 2);
        assert((s[0] as nat) * product(s.drop_first()) >= 2 * pow2((s.len() - 1) as nat))
            by (nonlinear_arith)
            requires
                s[0] >= 2,
                product(s.drop_first()) >= pow2((s.len() - 1) as nat),
        ;
    }
}

/// A list of factors of a 64-bit number has at most 64 entries: the
/// leading 1 and at most 63 primes.
pub proof fn lemma_factor_list_len(fs: Seq<u64>)
    requires
        is_factor_list(fs),
        product(fs) <= u64::MAX,
    ensures
        fs.len() <= 64,
        forall|i: int| 0 <= i < fs.len() ==> #[trigger] fs[i] >= 1,
{
    let rest = fs.drop_first();
    assert forall|i: int| 0 <= i < rest.len() implies #[trigger] rest[i] >= 2 by {
        assert(rest[i] == fs[i + 1]);
        assert(is_prime(fs[i + 1] as nat));
    }
    lemma_product_at_least_pow2(rest);
    assert(product(fs) == 1 * product(rest));
    lemma2_to64();
    if rest.len() > 64 {
        lemma_pow2_strictly_increases(64, rest.len());
    }
    assert forall|i: int| 0 <= i < fs.len() implies #[trigger] fs[i] >= 1 by {
        if i >= 1 {
            assert(is_prime(fs[i] as nat));
        }
    }
}

/// The product of a prefix of a list of positive numbers is at most the
/// product of the whole list.
pub proof fn lemma_product_prefix(s: Seq<u64>, j: int)
    requires
        0 <= j <= s.len(),
        forall|i: int| 0 <= i < s.len() ==> #[trigger] s[i] >= 1,
    ensures
        product(s.take(j)) <= product(s),
{
    lemma_product_concat_take(s, j);
    assert forall|i: int| 0 <= i < s.skip(j).len() implies #[trigger] s.skip(j)[i] >= 1 by {
        assert(s.skip(j)[i] == s[i + j]);
    }
    lemma_product_positive(s.skip(j));
    assert(product(s.take(j)) * product(s.skip(j)) >= product(s.take(j))) by (nonlinear_arith)
        requires
            product(s.skip(j)) >= 1,
    ;
}

/// The product of a list splits at any point.
pub proof fn lemma_product_concat_take(s: Seq<u64>, j: int)
    requires
        0 <= j <= s.len(),
    ensures
        product(s) == product(s.take(j)) * product(s.skip(j)),
    decreases j,
{
    if j == 0 {
        assert(s.take(0) =~= Seq::<u64>::empty());
        assert(s.skip(0) =~= s);
        assert(product(Seq::<u64>::empty()) == 1);
    } else {
        let t = s.drop_first();
        lemma_product_concat_take(t, j - 1);
        assert(s.take(j).drop_first() =~= t.take(j - 1));
        assert(s.skip(j) =~= t.skip(j - 1));
        assert(s.take(j)[0] == s[0]);
        let x = s[0] as nat;
        let p = product(t.take(j - 1));
        let q = product(t.skip(j - 1));
        assert(product(s.take(j)) == x * p);
        assert(x * (p * q) == (x * p) * q) by (nonlinear_arith);
    }
}


/// A divisor of a positive number is at most the number.
pub proof fn lemma_divisor_le(d: nat, n: nat)
    requires
        divides(d, n),
        n >= 1,
    ensures
        d <= n,
{
    lemma_fundamental_div_mod(n as int, d as int);
    let q = n / d;
    assert(d <= n) by (nonlinear_arith)
        requires
            n == d * q,
            n >= 1,
            d > 0,
    ;
}

/// Primes, none below `low`, in nondecreasing order.
pub open spec fn is_prime_run(g: Seq<u64>, low: nat) -> bool {
    &&& forall|i: int| 0 <= i < g.len() ==> is_prime(#[trigger] g[i] as nat) && g[i] >= low
    &&& forall|i: int, j: int| 0 <= i <= j < g.len() ==> g[i] <= g[j]
}

/// A positive 64-bit number that no number in `[2, low)` divides is a
/// product of primes, none below `low`, in nondecreasing order.
pub proof fn lemma_prime_run_exists(n: nat, low: nat) -> (g: Seq<u64>)
    requires
        1 <= n <= u64::MAX,
        low >= 2,
        forall|e: nat| 2 <= e < low ==> #[trigger] (n % e) != 0,
    ensures
        is_prime_run(g, low),
        product(g) == n,
        n == 1 ==> g.len() == 0,
    decreases n, n - low,
{
    if n == 1 {
        let g = Seq::<u64>::empty();
        assert(product(g) == 1);
        g
    } else {
        if low > n {
            lemma_mod_self_0(n as int);
            assert(n % n == 0);
        }
        if n % low == 0 {
            assert forall|e: nat| 2 <= e < low implies #[trigger] (low % e) != 0 by {
                if low % e == 0 {
                    lemma_divides_trans(n, low, e);
                }
            }
            lemma_prime_when_no_small_divisor(low);
            lemma_fundamental_div_mod(n as int, low as int);
            let q = n / low;
            assert(q >= 1 && q < n) by (nonlinear_arith)
                requires
                    n == low * q,
                    n >= 2,
                    low >= 2,
            ;
            lemma_mul_is_commutative(low as int, q as int);
            lemma_mod_multiples_basic(low as int, q as int);
            assert forall|e: nat| 2 <= e < low implies #[trigger] (q % e) != 0 by {
                if q % e == 0 {
                    lemma_divides_trans(n, q, e);
                }
            }
            let rest = lemma_prime_run_exists(q, low);
            let g = seq![low as u64] + rest;
            assert(g.drop_first() =~= rest);
            assert(product(g) == (low as nat) * product(rest));
            assert forall|i: int| 0 <= i < g.len() implies is_prime(#[trigger] g[i] as nat) && g[i]
                >= low by {
                if i > 0 {
                    assert(g[i] == rest[i - 1]);
                }
            }
            assert forall|i: int, j: int| 0 <= i <= j < g.len() implies g[i] <= g[j] by {
                if i > 0 {
                    assert(g[i] == rest[i - 1]);
                }
                if j > 0 {
                    assert(g[j] == rest[j - 1]);
                }
            }
            g
        } else {
            lemma_prime_run_exists(n, low + 1)
        }
    }
}

} // verus!
