use two_smallest_integers::number_factors::utils::{next_possible_prime, print_factors_helper};
use two_smallest_integers::number_factors::{
    CalcOperations, FactorSearch, NumberFactors, SplitSearch,
};

fn closest_pair(n: u64) -> u64 {
    let mut best = u64::MAX;
    let mut a = 1u64;
    while a <= n {
        if n % a == 0 {
            let b = n / a;
            best = best.min(a.abs_diff(b));
        }
        a += 1;
    }
    best
}

#[test]
fn next_possible_prime_skips_multiples_of_three() {
    assert_eq!(next_possible_prime(3), 5);
    assert_eq!(next_possible_prime(5), 7);
    assert_eq!(next_possible_prime(7), 11);
    assert_eq!(next_possible_prime(11), 13);
    assert_eq!(next_possible_prime(13), 17);
    assert_eq!(next_possible_prime(23), 25);
    assert_eq!(next_possible_prime(25), 29);
}

#[test]
fn next_possible_prime_skips_only_multiples_of_two_and_three() {
    let mut d = 5u64;
    while d < 10_000 {
        let next = next_possible_prime(d);
        assert!(next % 2 == 1 && next % 3 != 0);
        for k in (d + 1)..next {
            assert!(k % 2 == 0 || k % 3 == 0);
        }
        d = next;
    }
}

#[test]
fn candidates_skip_no_prime() {
    let mut candidates = vec![3u64];
    while *candidates.last().unwrap() < 100_000 {
        let d = *candidates.last().unwrap();
        candidates.push(next_possible_prime(d));
    }
    for q in 3u64..100_000 {
        if (2..q).take_while(|d| d * d <= q).all(|d| q % d != 0) {
            assert!(candidates.binary_search(&q).is_ok(), "prime {} skipped", q);
        }
    }
}

fn decode(t: &str) -> Vec<u64> {
    if t.is_empty() {
        return Vec::new();
    }
    let mut out = Vec::new();
    for term in t.split(" * ") {
        match term.split_once('^') {
            Some((v, c)) => {
                let v: u64 = v.parse().unwrap();
                for _ in 0..c.parse::<u64>().unwrap() {
                    out.push(v);
                }
            }
            None => out.push(term.parse().unwrap()),
        }
    }
    out
}

#[test]
fn print_factors_helper_can_be_read_back() {
    let lists: Vec<Vec<u64>> = vec![
        vec![],
        vec![1],
        vec![1, 2, 2, 2, 3, 5],
        vec![5, 3, 5],
        vec![7, 7, 7, 7, 7, 7, 7, 7, 7, 7, 7, 0, 0],
        vec![u64::MAX, 10, 10, 100],
    ];
    for l in lists {
        assert_eq!(decode(&print_factors_helper(&l)), l);
    }
}

#[test]
fn print_factors_helper_writes_powers() {
    assert_eq!(print_factors_helper(&[1, 2, 2, 2, 3, 5]), "1 * 2^3 * 3 * 5");
    assert_eq!(print_factors_helper(&[]), "");
    assert_eq!(print_factors_helper(&[7]), "7");
    assert_eq!(print_factors_helper(&[1]), "1");
    assert_eq!(print_factors_helper(&[2, 2]), "2^2");
    assert_eq!(print_factors_helper(&[1, 3, 3, 3, 3, 3, 3, 3, 3, 3, 3, 3, 3]), "1 * 3^12");
    assert_eq!(
        print_factors_helper(&[18446744073709551615, 18446744073709551615]),
        "18446744073709551615^2"
    );
    assert_eq!(print_factors_helper(&[5, 3, 5]), "5 * 3 * 5");
}

#[test]
fn new_factors_into_sorted_primes() {
    let nf = NumberFactors::new(360);
    assert_eq!(nf.number(), 360);
    assert_eq!(nf.factors(), &vec![1, 2, 2, 2, 3, 3, 5]);
    assert_eq!(nf.status, CalcOperations::StartedIntegerMult);
    assert_eq!(NumberFactors::new(1).factors(), &vec![1]);
    assert_eq!(NumberFactors::new(97).factors(), &vec![1, 97]);
    assert_eq!(NumberFactors::new(49).factors(), &vec![1, 7, 7]);
    assert_eq!(NumberFactors::new(2 * 3 * 5 * 7 * 11 * 13).factors(), &vec![1, 2, 3, 5, 7, 11, 13]);
    assert_eq!(NumberFactors::new(1u64 << 63).factors().len(), 64);
    assert_eq!(
        NumberFactors::new(u64::MAX).factors(),
        &vec![1, 3, 5, 17, 257, 641, 65537, 6700417]
    );
}

#[test]
fn factor_products_give_back_the_number() {
    for n in 1u64..3000 {
        let nf = NumberFactors::new(n);
        let fs = nf.factors();
        assert_eq!(fs[0], 1);
        assert_eq!(fs.iter().product::<u64>(), n);
        for w in fs[1..].windows(2) {
            assert!(w[0] <= w[1]);
        }
        for &p in &fs[1..] {
            assert!(p >= 2 && (2..p).all(|d| p % d != 0));
        }
    }
}

#[test]
fn search_steps_until_finished() {
    let mut search = FactorSearch::start(2 * 2 * 3 * 7 * 101);
    assert_eq!(search.factors(), &vec![1, 2, 2]);
    assert_eq!(search.remaining(), 3 * 7 * 101);
    assert_eq!(search.divisor(), 3);
    assert!(!search.is_finished());
    search.step();
    assert_eq!(search.factors(), &vec![1, 2, 2, 3]);
    assert_eq!(search.remaining(), 707);
    assert_eq!(search.divisor(), 5);
    search.step();
    search.step();
    assert_eq!(search.factors(), &vec![1, 2, 2, 3, 7]);
    assert_eq!(search.remaining(), 101);
    assert_eq!(search.divisor(), 11);
    while !search.is_finished() {
        search.step();
    }
    assert_eq!(search.factors(), &vec![1, 2, 2, 3, 7, 101]);
    assert_eq!(search.remaining(), 1);
    let nf = NumberFactors::from_search(search, false);
    assert_eq!(nf.status, CalcOperations::StartedIntegerMult);
    assert_eq!(nf.number(), 8484);
}

#[test]
fn cancelled_search_keeps_what_was_found() {
    let mut search = FactorSearch::start(8 * 9 * 25);
    search.step();
    let nf = NumberFactors::from_search(search, true);
    assert_eq!(nf.status, CalcOperations::Cancelled);
    assert_eq!(nf.factors(), &vec![1, 2, 2, 2, 3, 3]);
    let best = nf.calculate_smallest();
    assert_eq!(best.lhs * best.rhs, 72);
    assert_eq!(best.abs_diff, 1);
}

#[test]
fn smallest_of_one_is_one_times_one() {
    let r = NumberFactors::new(1).calculate_smallest();
    assert_eq!(r.abs_diff, 0);
    assert_eq!((r.lhs, r.rhs), (1, 1));
    assert_eq!(r.lhs_factors, vec![1]);
    assert_eq!(r.rhs_factors, vec![1]);
}

#[test]
fn smallest_of_twelve_is_three_times_four() {
    let r = NumberFactors::new(12).calculate_smallest();
    assert_eq!(r.abs_diff, 1);
    assert_eq!((r.lhs, r.rhs), (3, 4));
    assert_eq!(r.lhs_factors, vec![3]);
    assert_eq!(r.rhs_factors, vec![1, 2, 2]);
}

#[test]
fn smallest_of_six_is_two_times_three() {
    let r = NumberFactors::new(6).calculate_smallest();
    assert_eq!(r.abs_diff, 1);
    assert_eq!((r.lhs, r.rhs), (2, 3));
    assert_eq!(r.lhs_factors, vec![2]);
    assert_eq!(r.rhs_factors, vec![1, 3]);
}

#[test]
fn smallest_of_a_prime_is_one_times_it() {
    let r = NumberFactors::new(97).calculate_smallest();
    assert_eq!(r.abs_diff, 96);
    assert_eq!((r.lhs, r.rhs), (1, 97));
    assert_eq!(r.lhs_factors, vec![1]);
    assert_eq!(r.rhs_factors, vec![97]);
}

#[test]
fn smallest_of_a_square_has_no_gap() {
    let r = NumberFactors::new(36).calculate_smallest();
    assert_eq!(r.abs_diff, 0);
    assert_eq!((r.lhs, r.rhs), (6, 6));
}

#[test]
fn smallest_is_the_closest_pair_of_divisors() {
    for n in 1u64..600 {
        let r = NumberFactors::new(n).calculate_smallest();
        assert_eq!(r.lhs * r.rhs, n);
        assert_eq!(r.abs_diff, r.lhs.abs_diff(r.rhs));
        assert_eq!(r.abs_diff, closest_pair(n), "n = {}", n);
        assert_eq!(r.lhs_factors.iter().product::<u64>(), r.lhs);
        assert_eq!(r.rhs_factors.iter().product::<u64>(), r.rhs);
        let mut both: Vec<u64> = r.lhs_factors.iter().chain(r.rhs_factors.iter()).cloned().collect();
        both.sort();
        if n != 1 {
            assert_eq!(&both, NumberFactors::new(n).factors());
        }
    }
    for &n in &[1u64 << 20, 3 * 5 * 7 * 11 * 13 * 17 * 19, 999_999, 3 << 16] {
        let r = NumberFactors::new(n).calculate_smallest();
        assert_eq!(r.lhs * r.rhs, n);
        assert_eq!(r.abs_diff, closest_pair_fast(n), "n = {}", n);
    }
}

fn closest_pair_fast(n: u64) -> u64 {
    let mut a = (n as f64).sqrt() as u64 + 1;
    while a > 0 {
        if a * a <= n && n % a == 0 {
            return (n / a) - a;
        }
        a -= 1;
    }
    n - 1
}

#[test]
fn split_search_steps_until_done() {
    let nf = NumberFactors::new(30);
    let mut search = SplitSearch::new(&nf);
    let mut tried = Vec::new();
    while !search.is_done() {
        search.step();
        if !search.is_done() {
            tried.push(search.current_mask());
        }
    }
    assert_eq!(tried, vec![1, 2, 4, 8, 3, 5, 6]);
    let best = search.best();
    assert_eq!((best.lhs, best.rhs), (5, 6));
    assert_eq!(best.abs_diff, 1);
    let r = search.into_best();
    assert_eq!(r.lhs_factors, vec![5]);
    assert_eq!(r.rhs_factors, vec![1, 2, 3]);
}

#[test]
fn cancelled_search_leads_the_full_factorization() {
    let number = 4 * 27 * 5 * 49 * 11;
    let full = NumberFactors::new(number);
    let mut search = FactorSearch::start(number);
    search.step();
    search.step();
    let divisor = search.divisor();
    let part = NumberFactors::from_search(search, true);
    let found = part.factors().clone();
    assert_eq!(found, vec![1, 2, 2, 3, 3, 3, 5]);
    assert_eq!(divisor, 7);
    assert_eq!(&full.factors()[..found.len()], &found[..]);
    assert!(full.factors()[found.len()..].iter().all(|&p| p >= divisor));
    let left = number / found.iter().product::<u64>();
    assert_eq!(left, 49 * 11);
    assert!((2..divisor).all(|d| left % d != 0));
}

#[test]
fn split_search_starts_with_no_best() {
    let nf = NumberFactors::new(30);
    let search = SplitSearch::new(&nf);
    assert!(!search.is_done());
    assert_eq!(search.current_mask(), 0);
    let best = search.best();
    assert_eq!(best.abs_diff, u64::MAX);
    assert_eq!((best.lhs, best.rhs), (1, 1));
    assert!(best.lhs_factors.is_empty());
    assert!(best.rhs_factors.is_empty());
}

#[test]
fn split_search_of_one_starts_done() {
    let nf = NumberFactors::new(1);
    let search = SplitSearch::new(&nf);
    assert!(search.is_done());
    let best = search.best();
    assert_eq!(best.abs_diff, 0);
    assert_eq!((best.lhs, best.rhs), (1, 1));
    assert_eq!(best.lhs_factors, vec![1]);
    assert_eq!(best.rhs_factors, vec![1]);
}
