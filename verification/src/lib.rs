//! Finds two integers `a` and `b` with `a * b == n` and `|a - b|` as small as
//! possible, by factoring `n` into primes and trying every way of splitting the
//! prime factors into two groups.
pub mod number_factors;
