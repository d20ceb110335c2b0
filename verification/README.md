# two_smallest_integers

Given `n > 0`, finds integers `a` and `b` with `a * b == n` and `|a - b|` as
small as possible: `n` is factored into primes by trial division, and every
way of splitting the prime factors into two groups is tried.

## Layout

- `src/` — the verified library (Verus).
  - `number_factors.rs` — `FactorSearch` (trial division one candidate at a
    time), `NumberFactors` (a number with its factors), `SplitSearch` (the
    splits tried one at a time) and `calculate_smallest`.
  - `number_factors/bit_iter.rs` — `BitCombinationsIter`, which yields each
    split of a set into two parts once, and its bit helpers.
  - `number_factors/utils.rs` — the candidate step of the trial division and
    the text of a list of factors (`2^3 * 3 * 5`).
  - `number_factors/bit_math.rs`, `factor_math.rs`, `split_math.rs`,
    `combinations.rs` — the specifications and lemmas: counts of one bits,
    products, primes, Euclid's lemma, why the closest split is the closest
    pair of divisors, and how stepping with `next_bit_lex` visits every
    combination once.
- `tests/` — tests of the library.
- `app/main.rs` — the interactive program: reads numbers, runs the searches
  in threads, shows progress, and cancels a search when enter is pressed.
