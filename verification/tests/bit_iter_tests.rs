use two_smallest_integers::number_factors::bit_iter::{
    bits_end_mask, bits_reach_start, bsf, next_bit_lex, BitCombinationsIter,
};

fn all_splits(size: usize) -> Vec<u64> {
    let mut it = BitCombinationsIter::new(size);
    let mut out = Vec::new();
    while let Some(m) = it.next() {
        out.push(m);
    }
    out
}

#[test]
fn bsf_finds_lowest_set_bit() {
    assert_eq!(bsf(0), -1);
    assert_eq!(bsf(1), 0);
    assert_eq!(bsf(8), 3);
    assert_eq!(bsf(12), 2);
    assert_eq!(bsf(0b1010_0000), 5);
    assert_eq!(bsf(1u64 << 63), 63);
    assert_eq!(bsf(u64::MAX), 0);
}

#[test]
fn next_bit_lex_keeps_the_count_of_ones() {
    assert_eq!(next_bit_lex(1), 2);
    assert_eq!(next_bit_lex(2), 4);
    assert_eq!(next_bit_lex(3), 5);
    assert_eq!(next_bit_lex(5), 6);
    assert_eq!(next_bit_lex(6), 9);
    assert_eq!(next_bit_lex(0b0111), 0b1011);
    assert_eq!(next_bit_lex(0b1110), 0b1_0011);
    assert_eq!(next_bit_lex(1u64 << 62), 1u64 << 63);
    assert_eq!(next_bit_lex(0b0110_0000), 0b1000_0001);
}

#[test]
fn next_bit_lex_is_the_least_greater_with_as_many_ones() {
    for n in 1u64..2000 {
        let r = next_bit_lex(n);
        assert!(r > n);
        assert_eq!(r.count_ones(), n.count_ones());
        for m in (n + 1)..r {
            assert_ne!(m.count_ones(), n.count_ones());
        }
    }
}

#[test]
fn masks_of_low_and_high_ones() {
    assert_eq!(bits_reach_start(0), 0);
    assert_eq!(bits_reach_start(1), 1);
    assert_eq!(bits_reach_start(3), 7);
    assert_eq!(bits_reach_start(63), u64::MAX >> 1);
    assert_eq!(bits_reach_start(64), u64::MAX);
    assert_eq!(bits_end_mask(4, 2), 0b1100);
    assert_eq!(bits_end_mask(5, 1), 0b1_0000);
    assert_eq!(bits_end_mask(3, 3), 0b111);
    assert_eq!(bits_end_mask(64, 1), 1u64 << 63);
    assert_eq!(bits_end_mask(64, 64), u64::MAX);
    assert_eq!(bits_end_mask(64, 0), 0);
    assert_eq!(bits_end_mask(0, 0), 0);
}

#[test]
fn one_element_has_one_split() {
    assert_eq!(all_splits(1), vec![1]);
}

#[test]
fn two_elements_have_one_split() {
    assert_eq!(all_splits(2), vec![1]);
}

#[test]
fn three_elements_have_three_splits() {
    // {1,2,3}: {1}|{2,3}, {2}|{1,3}, {3}|{1,2}, each once.
    assert_eq!(all_splits(3), vec![1, 2, 4]);
}

#[test]
fn four_elements_split_in_order() {
    assert_eq!(all_splits(4), vec![1, 2, 4, 8, 3, 5, 6]);
}

#[test]
fn five_and_six_elements_split_in_order() {
    assert_eq!(
        all_splits(5),
        vec![1, 2, 4, 8, 16, 3, 5, 6, 9, 10, 12, 17, 18, 20, 24]
    );
    assert_eq!(
        all_splits(6),
        vec![
            1, 2, 4, 8, 16, 32, 3, 5, 6, 9, 10, 12, 17, 18, 20, 24, 33, 34, 36, 40, 48, 7, 11, 13,
            14, 19, 21, 22, 25, 26, 28
        ]
    );
}

#[test]
fn every_split_comes_exactly_once() {
    for size in 2usize..=12 {
        let splits = all_splits(size);
        let full = (1u64 << size) - 1;
        assert_eq!(splits.len() as u64, (1u64 << (size - 1)) - 1);
        for s in 1..full {
            let c = full & !s;
            let found = splits.iter().filter(|&&m| m == s || m == c).count();
            assert_eq!(found, 1, "size {} subset {:b}", size, s);
        }
    }
}

fn binomial(s: u64, k: u64) -> u64 {
    let mut r = 1u64;
    for i in 0..k {
        r = r * (s - i) / (i + 1);
    }
    r
}

#[test]
fn next_bit_lex_walks_every_subset_once() {
    for s in 1usize..=12 {
        for k in 1usize..=s {
            let last = bits_end_mask(s, k);
            let mut x = bits_reach_start(k);
            let mut seen = vec![x];
            while x != last {
                x = next_bit_lex(x);
                seen.push(x);
            }
            assert_eq!(seen.len() as u64, binomial(s as u64, k as u64));
            for w in seen.windows(2) {
                assert!(w[0] < w[1]);
            }
            let all: Vec<u64> = (0..(1u64 << s)).filter(|m| m.count_ones() as usize == k).collect();
            assert_eq!(seen, all);
        }
    }
}

#[test]
fn split_count_is_half_the_proper_subsets() {
    for size in 2usize..=14 {
        let mut it = BitCombinationsIter::new(size);
        let mut n = 0u64;
        while it.next().is_some() {
            n += 1;
        }
        assert_eq!(n, (1u64 << (size - 1)) - 1);
    }
}

#[test]
fn a_run_rises_by_ones_then_value_without_repeats() {
    for size in 2usize..=12 {
        let splits = all_splits(size);
        let full = (1u64 << size) - 1;
        for w in splits.windows(2) {
            let key = |m: u64| (m.count_ones(), m);
            assert!(key(w[0]) < key(w[1]), "size {}", size);
        }
        assert!(splits.iter().all(|&m| 0 < m && m < full));
    }
    assert_eq!(all_splits(1), vec![1]);
}
