use vstd::prelude::*;

verus! {

use crate::number_factors::factor_math::{is_prime, copies};

/// The candidate divisor that follows `num` in the trial division: the next
/// number of `num + 2` and `num + 4` that 3 does not divide.
pub open spec fn next_possible_prime_spec(num: int) -> int {
    if (num + 2) % 3 != 0 {
        num + 2
    } else {
        num + 4
    }
}

/// The `i`-th candidate divisor of the trial division: 3, then each next one.
pub open spec fn candidate(i: nat) -> int
    decreases i,
{
    if i == 0 {
        3
    } else {
        next_possible_prime_spec(candidate((i - 1) as nat))
    }
}

/// The candidates grow strictly.
pub proof fn lemma_candidates_increase(i: nat, j: nat)
    requires
        i < j,
    ensures
        candidate(i) < candidate(j),
    decreases j,
{
    if i < j - 1 {
        lemma_candidates_increase(i, (j - 1) as nat);
    }
}

/// Every odd number from 3 on that 3 does not divide, and 3 itself, is a
/// candidate.
proof fn lemma_candidate_reached(n: nat)
    requires
        n >= 3,
        n % 2 == 1,
        n == 3 || n % 3 != 0,
    ensures
        exists|i: nat| candidate(i) == n,
    decreases n,
{
    if n == 3 {
        assert(candidate(0) == 3);
    } else if n == 5 {
        assert(candidate(1) == 5) by {
            assert(candidate(0) == 3);
        }
    } else {
        let prev: nat = if n % 6 == 1 {
            (n - 2) as nat
        } else {
            (n - 4) as nat
        };
        lemma_candidate_reached(prev);
        let i = choose|i: nat| candidate(i) == prev;
        assert(candidate(i + 1) == n);
    }
}

/// The candidates skip no prime: every prime from 3 on is one of them.
pub proof fn lemma_candidates_skip_no_prime(q: nat)
    requires
        q >= 3,
        is_prime(q),
    ensures
        exists|i: nat| candidate(i) == q,
{
    assert(q % 2 != 0);
    if q != 3 {
        assert(q % 3 != 0);
    }
    lemma_candidate_reached(q);
}

/// Steps from one odd trial divisor to the next one that 3 does not divide.
///
/// Every number strictly between an odd `num` and the result is divisible by
/// 2 or by 3, so no candidate prime is skipped.
pub fn next_possible_prime(num: u64) -> (r: u64)
    requires
        next_possible_prime_spec(num as int) <= u64::MAX,
    ensures
        r == next_possible_prime_spec(num as int),
        r % 3 != 0,
        num < r <= num + 4,
        num % 2 == 1 ==> r % 2 == 1,
        num % 2 == 1 ==> forall|k: int| num < k < r ==> #[trigger] (k % 2) == 0 || k % 3 == 0,
{
    if (num + 2) % 3 != 0 {
        num + 2
    } else {
        num + 4
    }
}


/// The decimal digit for `d < 10`.
pub open spec fn digit_char(d: nat) -> char {
    if d == 0 {
        '0'
    } else if d == 1 {
        '1'
    } else if d == 2 {
        '2'
    } else if d == 3 {
        '3'
    } else if d == 4 {
        '4'
    } else if d == 5 {
        '5'
    } else if d == 6 {
        '6'
    } else if d == 7 {
        '7'
    } else if d == 8 {
        '8'
    } else {
        '9'
    }
}

/// The decimal representation of `n`, without leading zeros.
pub open spec fn decimal(n: nat) -> Seq<char>
    decreases n,
{
    if n < 10 {
        seq![digit_char(n)]
    } else {
        decimal(n / 10).push(digit_char(n % 10))
    }
}

/// The runs of equal neighbours in `s`: each distinct value in turn with
/// how many times it repeats.
pub open spec fn runs(s: Seq<u64>) -> Seq<(u64, nat)>
    decreases s.len(),
{
    if s.len() == 0 {
        Seq::empty()
    } else {
        let r = runs(s.drop_last());
        if r.len() > 0 && r.last().0 == s.last() {
            r.update(r.len() - 1, (s.last(), r.last().1 + 1))
        } else {
            r.push((s.last(), 1))
        }
    }
}

/// A factor with its exponent: `v` alone, or `v^count` when it repeats.
pub open spec fn power_text(v: u64, count: nat) -> Seq<char> {
    if count > 1 {
        decimal(v as nat) + seq!['^'] + decimal(count)
    } else {
        decimal(v as nat)
    }
}

/// The text of a run of factors, joined by `" * "`.
pub open spec fn product_text(rs: Seq<(u64, nat)>) -> Seq<char>
    decreases rs.len(),
{
    if rs.len() == 0 {
        Seq::empty()
    } else if rs.len() == 1 {
        power_text(rs[0].0, rs[0].1)
    } else {
        product_text(rs.drop_last()) + seq![' ', '*', ' '] + power_text(
            rs.last().0,
            rs.last().1,
        )
    }
}

/// The text of a digit.
fn digit_str(d: u64) -> (r: &'static str)
    requires
        d < 10,
    ensures
        r@ == seq![digit_char(d as nat)],
{
    if d == 0 {
        proof {
            reveal_strlit("0");
        }
        "0"
    } else if d == 1 {
        proof {
            reveal_strlit("1");
        }
        "1"
    } else if d == 2 {
        proof {
            reveal_strlit("2");
        }
        "2"
    } else if d == 3 {
        proof {
            reveal_strlit("3");
        }
        "3"
    } else if d == 4 {
        proof {
            reveal_strlit("4");
        }
        "4"
    } else if d == 5 {
        proof {
            reveal_strlit("5");
        }
        "5"
    } else if d == 6 {
        proof {
            reveal_strlit("6");
        }
        "6"
    } else if d == 7 {
        proof {
            reveal_strlit("7");
        }
        "7"
    } else if d == 8 {
        proof {
            reveal_strlit("8");
        }
        "8"
    } else {
        proof {
            reveal_strlit("9");
        }
        "9"
    }
}

/// Appends the decimal representation of `n`.
fn push_decimal(s: &mut String, n: u64)
    ensures
        final(s)@ == old(s)@ + decimal(n as nat),
    decreases n,
{
    if n >= 10 {
        push_decimal(s, n / 10);
    }
    s.append(digit_str(n % 10));
    proof {
        if n >= 10 {
            assert(old(s)@ + decimal(n as nat / 10) + seq![digit_char(n as nat % 10)] =~= old(s)@
                + decimal(n as nat));
        } else {
            assert(old(s)@ + seq![digit_char(n as nat)] =~= old(s)@ + decimal(n as nat));
        }
    }
}

/// The factors as a product of powers, such as `2^3 * 3 * 5` for the list
/// `2, 2, 2, 3, 5`: each run of equal neighbours becomes the value with its
/// count as exponent when the count is more than 1.
pub fn print_factors_helper(u64sl: &[u64]) -> (r: String)
    ensures
        r@ == product_text(runs(u64sl@)),
{
    let mut str: String = String::new();
    let mut vec_freq: Vec<(u64, usize)> = Vec::new();
    let mut i: usize = 0;
    proof {
        assert(u64sl@.take(0) =~= Seq::<u64>::empty());
    }
    while i < u64sl.len()
        invariant
            i <= u64sl@.len(),
            vec_freq@.len() == runs(u64sl@.take(i as int)).len(),
            forall|j: int|
                0 <= j < vec_freq@.len() ==> (#[trigger] vec_freq@[j]).0 == runs(
                    u64sl@.take(i as int),
                )[j].0 && vec_freq@[j].1 as nat == runs(u64sl@.take(i as int))[j].1,
            forall|j: int| 0 <= j < vec_freq@.len() ==> (#[trigger] vec_freq@[j]).1 <= i,
        decreases u64sl@.len() - i,
    {
        let v = u64sl[i];
        let ghost before = u64sl@.take(i as int);
        proof {
            assert(u64sl@.take(i as int + 1).drop_last() =~= before);
            assert(u64sl@.take(i as int + 1).last() == v);
        }
        let len = vec_freq.len();
        if len > 0 && vec_freq[len - 1].0 == v {
            let (run_value, count) = vec_freq[len - 1];
            vec_freq.set(len - 1, (run_value, count + 1));
        } else {
            vec_freq.push((v, 1));
        }
        i += 1;
    }
    proof {
        assert(u64sl@.take(u64sl@.len() as int) =~= u64sl@);
    }
    let ghost rs = runs(u64sl@);
    let n = vec_freq.len();
    let mut i: usize = 0;
    proof {
        assert(rs.take(0) =~= Seq::<(u64, nat)>::empty());
    }
    while i < n
        invariant
            n == vec_freq@.len() == rs.len(),
            i <= n,
            forall|j: int|
                0 <= j < n ==> (#[trigger] vec_freq@[j]).0 == rs[j].0 && vec_freq@[j].1 as nat
                    == rs[j].1,
            str@ == product_text(rs.take(i as int)) + if 0 < i < n {
                seq![' ', '*', ' ']
            } else {
                Seq::empty()
            },
        decreases n - i,
    {
        let (v, count) = vec_freq[i];
        let ghost head = str@;
        push_decimal(&mut str, v);
        if count > 1 {
            proof {
                reveal_strlit("^");
            }
            str.append("^");
            push_decimal(&mut str, count as u64);
        }
        if i < n - 1 {
            proof {
                reveal_strlit(" * ");
            }
            str.append(" * ");
        }
        proof {
            let t = rs.take(i as int + 1);
            assert(t.drop_last() =~= rs.take(i as int));
            assert(t.last() == rs[i as int]);
            if i == 0 {
                assert(t.len() == 1);
                assert(rs.take(0) =~= Seq::<(u64, nat)>::empty());
            }
            assert(head + power_text(v, count as nat) =~= product_text(t) ) by {
                if i > 0 {
                    assert(product_text(t) == product_text(rs.take(i as int)) + seq![' ', '*', ' ']
                        + power_text(rs[i as int].0, rs[i as int].1));
                }
            }
        }
        i += 1;
    }
    proof {
        assert(rs.take(n as int) =~= rs);
    }
    str
}


/// The value of a decimal digit character (0 for any other character).
pub open spec fn digit_value(c: char) -> nat {
    if c == '1' {
        1
    } else if c == '2' {
        2
    } else if c == '3' {
        3
    } else if c == '4' {
        4
    } else if c == '5' {
        5
    } else if c == '6' {
        6
    } else if c == '7' {
        7
    } else if c == '8' {
        8
    } else if c == '9' {
        9
    } else {
        0
    }
}

/// The number that a string of decimal digits denotes.
pub open spec fn parse_decimal(t: Seq<char>) -> nat
    decreases t.len(),
{
    if t.len() == 0 {
        0
    } else {
        parse_decimal(t.drop_last()) * 10 + digit_value(t.last())
    }
}

/// Length of the last term of `t`: the characters after its last space.
pub open spec fn last_term_len(t: Seq<char>) -> nat
    decreases t.len(),
{
    if t.len() == 0 || t.last() == ' ' {
        0
    } else {
        1 + last_term_len(t.drop_last())
    }
}

/// Position of the first `'^'` in `t`, or its length when there is none.
pub open spec fn caret_pos(t: Seq<char>) -> nat
    decreases t.len(),
{
    if t.len() == 0 || t[0] == '^' {
        0
    } else {
        1 + caret_pos(t.drop_first())
    }
}

/// The factors a term stands for: `v^c` for `c` copies of `v`, `v` for `v`.
pub open spec fn expand_term(term: Seq<char>) -> Seq<u64> {
    let h = caret_pos(term);
    if h >= term.len() {
        seq![parse_decimal(term) as u64]
    } else {
        copies(
            parse_decimal(term.subrange(h as int + 1, term.len() as int)),
            parse_decimal(term.subrange(0, h as int)) as u64,
        )
    }
}

/// Reads a text of terms joined by `" * "` back into the factors it stands
/// for (none for the empty text).
pub open spec fn decode_factors(t: Seq<char>) -> Seq<u64>
    decreases t.len(),
{
    if t.len() == 0 {
        Seq::empty()
    } else {
        let l = last_term_len(t);
        let term = t.subrange(t.len() - l, t.len() as int);
        if l + 3 <= t.len() {
            decode_factors(t.subrange(0, t.len() - l - 3)) + expand_term(term)
        } else {
            expand_term(term)
        }
    }
}

/// The factors that a list of runs stands for.
pub open spec fn expand_runs(rs: Seq<(u64, nat)>) -> Seq<u64>
    decreases rs.len(),
{
    if rs.len() == 0 {
        Seq::empty()
    } else {
        expand_runs(rs.drop_last()) + copies(rs.last().1, rs.last().0)
    }
}

/// The runs of a list repeat each value at least once and stand for the
/// list.
proof fn lemma_runs_expand(s: Seq<u64>)
    ensures
        expand_runs(runs(s)) == s,
        forall|i: int| 0 <= i < runs(s).len() ==> #[trigger] runs(s)[i].1 >= 1,
    decreases s.len(),
{
    if s.len() > 0 {
        let r = runs(s.drop_last());
        lemma_runs_expand(s.drop_last());
        if r.len() > 0 && r.last().0 == s.last() {
            let u = r.update(r.len() - 1, (s.last(), r.last().1 + 1));
            assert(u.drop_last() =~= r.drop_last());
            assert(copies(r.last().1 + 1, s.last()) =~= copies(r.last().1, s.last()).push(
                s.last(),
            ));
            assert(expand_runs(u) =~= expand_runs(r).push(s.last()));
        } else {
            let u = r.push((s.last(), 1));
            assert(u.drop_last() =~= r);
            assert(copies(1, s.last()) =~= seq![s.last()]);
        }
        assert(s =~= s.drop_last().push(s.last()));
    }
}

/// A decimal text holds only digits: no space and no `'^'`.
proof fn lemma_decimal_chars(n: nat)
    ensures
        decimal(n).len() >= 1,
        forall|i: int| 0 <= i < decimal(n).len() ==> #[trigger] decimal(n)[i] != ' ' && decimal(
            n,
        )[i] != '^',
    decreases n,
{
    if n >= 10 {
        lemma_decimal_chars(n / 10);
    }
}

/// Reading a decimal text gives back its number.
proof fn lemma_parse_decimal(n: nat)
    ensures
        parse_decimal(decimal(n)) == n,
    decreases n,
{
    let d = n % 10;
    assert(digit_value(digit_char(d)) == d);
    if n >= 10 {
        lemma_parse_decimal(n / 10);
        assert(decimal(n).drop_last() =~= decimal(n / 10));
        assert(decimal(n).last() == digit_char(d));
        assert(parse_decimal(decimal(n)) == parse_decimal(decimal(n / 10)) * 10 + digit_value(
            digit_char(d),
        ));
        assert((n / 10) * 10 + d == n);
    } else {
        assert(seq![digit_char(n)].drop_last() =~= Seq::<char>::empty());
        assert(parse_decimal(decimal(n)) == parse_decimal(Seq::<char>::empty()) * 10
            + digit_value(digit_char(n)));
    }
}

/// The last term of `x + y` is `y` when `y` holds no space and `x` is empty
/// or ends with one.
proof fn lemma_last_term_len(x: Seq<char>, y: Seq<char>)
    requires
        forall|i: int| 0 <= i < y.len() ==> #[trigger] y[i] != ' ',
        x.len() == 0 || x.last() == ' ',
    ensures
        last_term_len(x + y) == y.len(),
    decreases y.len(),
{
    if y.len() == 0 {
        assert(x + y =~= x);
    } else {
        assert((x + y).drop_last() =~= x + y.drop_last());
        lemma_last_term_len(x, y.drop_last());
    }
}

/// The `'^'` of `x + ['^'] + y` is found after `x` when `x` holds none.
proof fn lemma_caret_pos(x: Seq<char>, y: Seq<char>)
    requires
        forall|i: int| 0 <= i < x.len() ==> #[trigger] x[i] != '^',
    ensures
        caret_pos(x + y) == x.len() + caret_pos(y),
    decreases x.len(),
{
    if x.len() > 0 {
        assert((x + y).drop_first() =~= x.drop_first() + y);
        lemma_caret_pos(x.drop_first(), y);
    } else {
        assert(x + y =~= y);
    }
}

/// A term reads back as its run.
proof fn lemma_expand_power_text(v: u64, c: nat)
    requires
        c >= 1,
    ensures
        expand_term(power_text(v, c)) == copies(c, v),
        power_text(v, c).len() >= 1,
        forall|i: int| 0 <= i < power_text(v, c).len() ==> #[trigger] power_text(v, c)[i] != ' ',
{
    let dv = decimal(v as nat);
    lemma_decimal_chars(v as nat);
    lemma_parse_decimal(v as nat);
    if c == 1 {
        lemma_caret_pos(dv, Seq::<char>::empty());
        assert(dv + Seq::<char>::empty() =~= dv);
        assert(copies(1, v) =~= seq![v]);
    } else {
        let dc = decimal(c);
        lemma_decimal_chars(c);
        lemma_parse_decimal(c);
        let t = dv + seq!['^'] + dc;
        assert(t =~= dv + (seq!['^'] + dc));
        lemma_caret_pos(dv, seq!['^'] + dc);
        assert(t.subrange(0, dv.len() as int) =~= dv);
        assert(t.subrange(dv.len() as int + 1, t.len() as int) =~= dc);
    }
}

/// The text of runs reads back as the runs' factors.
proof fn lemma_decode_product_text(rs: Seq<(u64, nat)>)
    requires
        forall|i: int| 0 <= i < rs.len() ==> #[trigger] rs[i].1 >= 1,
    ensures
        decode_factors(product_text(rs)) == expand_runs(rs),
    decreases rs.len(),
{
    if rs.len() == 1 {
        let p = power_text(rs[0].0, rs[0].1);
        lemma_expand_power_text(rs[0].0, rs[0].1);
        lemma_last_term_len(Seq::<char>::empty(), p);
        assert(Seq::<char>::empty() + p =~= p);
        assert(p.subrange(0, p.len() as int) =~= p);
        assert(rs.drop_last() =~= Seq::<(u64, nat)>::empty());
        assert(Seq::<u64>::empty() + copies(rs[0].1, rs[0].0) =~= copies(rs[0].1, rs[0].0));
        assert(product_text(rs) == p);
        assert(decode_factors(p) == expand_term(p));
        assert(expand_runs(rs) == expand_runs(rs.drop_last()) + copies(rs.last().1, rs.last().0));
    } else if rs.len() > 1 {
        let a = product_text(rs.drop_last());
        let p = power_text(rs.last().0, rs.last().1);
        let x = a + seq![' ', '*', ' '];
        let t = x + p;
        assert(product_text(rs) =~= t);
        lemma_expand_power_text(rs.last().0, rs.last().1);
        lemma_last_term_len(x, p);
        assert(t.subrange(t.len() - p.len(), t.len() as int) =~= p);
        assert(t.subrange(0, t.len() - p.len() - 3) =~= a);
        lemma_decode_product_text(rs.drop_last());
        assert forall|i: int| 0 <= i < rs.drop_last().len() implies #[trigger] rs.drop_last()[i].1
            >= 1 by {
            assert(rs.drop_last()[i] == rs[i]);
        }
        assert(decode_factors(t) == decode_factors(a) + expand_term(p));
        assert(expand_runs(rs) == expand_runs(rs.drop_last()) + copies(rs.last().1, rs.last().0));
    }
}

/// The text that `print_factors_helper` writes can be read back: decoding
/// it gives the input list, every element with its multiplicity and
/// position.
pub proof fn lemma_factors_text_decodes(s: Seq<u64>)
    ensures
        decode_factors(product_text(runs(s))) == s,
{
    lemma_runs_expand(s);
    lemma_decode_product_text(runs(s));
}

/// `c` is one of the ten decimal digits.
pub open spec fn is_digit(c: char) -> bool {
    c == '0' || digit_value(c) != 0
}

/// `t` is a number written in decimal as usual: one or more digits and no
/// leading zero.
pub open spec fn is_plain_decimal(t: Seq<char>) -> bool {
    &&& t.len() >= 1
    &&& forall|i: int| 0 <= i < t.len() ==> is_digit(#[trigger] t[i])
    &&& t.len() == 1 || t[0] != '0'
}

/// Reads one term as a value with its count: `v` for one copy of `v`, and
/// `v^c` with `c >= 2` for `c` copies. Anything else is refused.
pub open spec fn read_term(term: Seq<char>) -> Option<(u64, nat)> {
    let h = caret_pos(term);
    if h >= term.len() {
        if is_plain_decimal(term) && parse_decimal(term) <= u64::MAX {
            Some((parse_decimal(term) as u64, 1))
        } else {
            None
        }
    } else {
        let base = term.subrange(0, h as int);
        let exp = term.subrange(h as int + 1, term.len() as int);
        if is_plain_decimal(base) && is_plain_decimal(exp) && parse_decimal(base) <= u64::MAX
            && parse_decimal(exp) >= 2 {
            Some((parse_decimal(base) as u64, parse_decimal(exp)))
        } else {
            None
        }
    }
}

/// Reads a text of terms joined by exactly `" * "` as the list of values
/// with counts that its terms stand for; the empty text stands for none.
/// Any other separator, an empty term or a malformed term is refused.
pub open spec fn read_runs(t: Seq<char>) -> Option<Seq<(u64, nat)>>
    decreases t.len(),
{
    if t.len() == 0 {
        Some(Seq::empty())
    } else {
        let l = last_term_len(t);
        match read_term(t.subrange(t.len() - l, t.len() as int)) {
            None => None,
            Some(r) => if l == t.len() {
                Some(seq![r])
            } else if l + 3 < t.len() && t.subrange(t.len() - l - 3, t.len() - l) == seq![
                ' ',
                '*',
                ' ',
            ] {
                match read_runs(t.subrange(0, t.len() - l - 3)) {
                    Some(rs) => Some(rs.push(r)),
                    None => None,
                }
            } else {
                None
            },
        }
    }
}

/// Neighbouring runs hold different values.
proof fn lemma_runs_distinct(s: Seq<u64>)
    ensures
        forall|i: int| 0 <= i < runs(s).len() - 1 ==> #[trigger] runs(s)[i].0 != runs(s)[i + 1].0,
        s.len() > 0 ==> runs(s).len() > 0 && runs(s).last().0 == s.last(),
    decreases s.len(),
{
    if s.len() > 0 {
        let r = runs(s.drop_last());
        lemma_runs_distinct(s.drop_last());
        let u = runs(s);
        if r.len() > 0 && r.last().0 == s.last() {
            assert forall|i: int| 0 <= i < u.len() - 1 implies #[trigger] u[i].0 != u[i + 1].0 by {
                assert(u[i] == r[i]);
                if i + 1 < u.len() - 1 {
                    assert(u[i + 1] == r[i + 1]);
                }
            }
        } else {
            assert forall|i: int| 0 <= i < u.len() - 1 implies #[trigger] u[i].0 != u[i + 1].0 by {
                assert(u[i] == r[i]);
                if i + 1 < u.len() - 1 {
                    assert(u[i + 1] == r[i + 1]);
                }
            }
        }
    }
}

/// A decimal text is a plain decimal.
proof fn lemma_decimal_plain(n: nat)
    ensures
        is_plain_decimal(decimal(n)),
        n >= 1 ==> decimal(n)[0] != '0',
    decreases n,
{
    if n >= 10 {
        lemma_decimal_plain(n / 10);
        assert(decimal(n)[0] == decimal(n / 10)[0]);
        assert forall|i: int| 0 <= i < decimal(n).len() implies is_digit(#[trigger] decimal(n)[i]) by {
            if i < decimal(n / 10).len() {
                assert(decimal(n)[i] == decimal(n / 10)[i]);
            }
        }
    }
}

/// A term reads back as its value and count.
proof fn lemma_read_power_text(v: u64, c: nat)
    requires
        c >= 1,
    ensures
        read_term(power_text(v, c)) == Some((v, c)),
{
    let dv = decimal(v as nat);
    lemma_decimal_chars(v as nat);
    lemma_parse_decimal(v as nat);
    lemma_decimal_plain(v as nat);
    if c == 1 {
        lemma_caret_pos(dv, Seq::<char>::empty());
        assert(dv + Seq::<char>::empty() =~= dv);
    } else {
        let dc = decimal(c);
        lemma_decimal_chars(c);
        lemma_parse_decimal(c);
        lemma_decimal_plain(c);
        let t = dv + seq!['^'] + dc;
        assert(t =~= dv + (seq!['^'] + dc));
        lemma_caret_pos(dv, seq!['^'] + dc);
        assert(t.subrange(0, dv.len() as int) =~= dv);
        assert(t.subrange(dv.len() as int + 1, t.len() as int) =~= dc);
    }
}

/// The text of runs with positive counts reads back as those runs.
proof fn lemma_read_product_text(rs: Seq<(u64, nat)>)
    requires
        forall|i: int| 0 <= i < rs.len() ==> #[trigger] rs[i].1 >= 1,
    ensures
        read_runs(product_text(rs)) == Some(rs),
        rs.len() > 0 ==> product_text(rs).len() > 0,
    decreases rs.len(),
{
    if rs.len() == 0 {
    } else if rs.len() == 1 {
        let p = power_text(rs[0].0, rs[0].1);
        lemma_expand_power_text(rs[0].0, rs[0].1);
        lemma_read_power_text(rs[0].0, rs[0].1);
        lemma_last_term_len(Seq::<char>::empty(), p);
        assert(Seq::<char>::empty() + p =~= p);
        assert(p.subrange(0, p.len() as int) =~= p);
        assert(product_text(rs) == p);
        assert(seq![(rs[0].0, rs[0].1)] =~= rs);
    } else {
        let a = product_text(rs.drop_last());
        let p = power_text(rs.last().0, rs.last().1);
        let x = a + seq![' ', '*', ' '];
        let t = x + p;
        assert(product_text(rs) =~= t);
        assert forall|i: int| 0 <= i < rs.drop_last().len() implies #[trigger] rs.drop_last()[i].1
            >= 1 by {
            assert(rs.drop_last()[i] == rs[i]);
        }
        lemma_read_product_text(rs.drop_last());
        lemma_expand_power_text(rs.last().0, rs.last().1);
        lemma_read_power_text(rs.last().0, rs.last().1);
        lemma_last_term_len(x, p);
        assert(t.subrange(t.len() - p.len(), t.len() as int) =~= p);
        assert(t.subrange(t.len() - p.len() - 3, t.len() - p.len()) =~= seq![' ', '*', ' ']);
        assert(t.subrange(0, t.len() - p.len() - 3) =~= a);
        assert(rs.drop_last().push((rs.last().0, rs.last().1)) =~= rs);
    }
}

/// The text that `print_factors_helper` writes for a list is its terms
/// joined by exactly `" * "`, each term a value in plain decimal, raised to
/// `^c` in plain decimal when it stands for `c >= 2` equal neighbours: read
/// back term by term, it gives runs with counts of at least 1 that spell out
/// the list in order, and neighbouring runs hold different values, so every
/// run of equal neighbours is one term.
pub proof fn lemma_factors_text_reads_back(s: Seq<u64>) -> (rs: Seq<(u64, nat)>)
    ensures
        read_runs(product_text(runs(s))) == Some(rs),
        expand_runs(rs) == s,
        forall|i: int| 0 <= i < rs.len() ==> #[trigger] rs[i].1 >= 1,
        forall|i: int| 0 <= i < rs.len() - 1 ==> #[trigger] rs[i].0 != rs[i + 1].0,
{
    lemma_runs_expand(s);
    lemma_runs_distinct(s);
    lemma_read_product_text(runs(s));
    runs(s)
}

} // verus!
