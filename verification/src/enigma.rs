//! Remainders of powers, written one after the other.

use crate::digits::{join_decimal, join_numbers};
use crate::text::{
    chars_of, fields, fields_of, lines, lines_of, parse_word, pieces_view, split_once,
    split_once_at, word,
};
use std::collections::HashMap;
use vstd::prelude::*;

verus! {

broadcast use vstd::std_specs::hash::group_hash_axioms;

/// The remainder of `n` to the power `k` on division by `m`, taken step by
/// step: each step multiplies by `n` and reduces.
pub open spec fn power_mod(n: usize, m: usize, k: nat) -> nat
    decreases k,
{
    if k == 0 {
        1
    } else {
        ((power_mod(n, m, (k - 1) as nat) * n) % (m as int)) as nat
    }
}

/// The remainders of the powers `exp`, `exp - 1`, down to 1, in that order.
pub open spec fn remainders_down(n: usize, m: usize, exp: nat) -> Seq<u64> {
    Seq::new(exp, |i: int| power_mod(n, m, (exp - i) as nat) as u64)
}

/// The numbers of `numbers` from the last to the first.
pub open spec fn backwards(numbers: Seq<usize>) -> Seq<u64> {
    Seq::new(numbers.len(), |i: int| numbers[numbers.len() - 1 - i] as u64)
}

/// The number read from `numbers` written one after the other, the last
/// of them first.
pub fn concat_ints(numbers: &[usize]) -> (joined: usize)
    requires
        join_decimal(backwards(numbers@)) <= usize::MAX,
    ensures
        joined == join_decimal(backwards(numbers@)),
{
    let mut reversed: Vec<u64> = Vec::new();
    let len = numbers.len();
    let mut i: usize = 0;
    while i < len
        invariant
            0 <= i <= len,
            len == numbers@.len(),
            reversed@.len() == i,
            forall|j: int| 0 <= j < i ==> reversed@[j] == numbers@[len - 1 - j] as u64,
        decreases len - i,
    {
        reversed.push(numbers[len - 1 - i] as u64);
        i += 1;
    }
    assert(reversed@ =~= backwards(numbers@));
    let joined = join_numbers(&reversed).unwrap();
    joined as usize
}

/// The remainders of the first `exp_val` powers of `n_val` on division by
/// `mod_val`, written one after the other from the highest power down and
/// read as one number.
pub fn eni_1(n_val: usize, exp_val: usize, mod_val: usize) -> (joined: usize)
    requires
        mod_val > 0,
        n_val * mod_val <= usize::MAX,
        join_decimal(remainders_down(n_val, mod_val, exp_val as nat)) <= usize::MAX,
    ensures
        joined == join_decimal(remainders_down(n_val, mod_val, exp_val as nat)),
{
    let mut score: usize = 1;
    let mut rems: Vec<usize> = Vec::new();
    let mut k: usize = 0;
    while k < exp_val
        invariant
            0 <= k <= exp_val,
            mod_val > 0,
            n_val * mod_val <= usize::MAX,
            score == power_mod(n_val, mod_val, k as nat),
            score <= mod_val,
            rems@.len() == k,
            forall|j: int| 0 <= j < k ==> rems@[j] == power_mod(n_val, mod_val, (j + 1) as nat),
        decreases exp_val - k,
    {
        assert(score * n_val <= usize::MAX) by (nonlinear_arith)
            requires
                score <= mod_val,
                n_val * mod_val <= usize::MAX,
        ;
        score = (score * n_val) % mod_val;
        rems.push(score);
        k += 1;
    }
    assert(backwards(rems@) =~= remainders_down(n_val, mod_val, exp_val as nat));
    concat_ints(rems.as_slice())
}

/// Three bases, three exponents and the modulus they share.
#[derive(Clone, Copy, Debug, PartialEq, Eq, Structural)]
pub struct Row {
    pub a: usize,
    pub b: usize,
    pub c: usize,
    pub x: usize,
    pub y: usize,
    pub z: usize,
    pub m: usize,
}

/// The sum of what `fun` gives for the three pairs of base and exponent of
/// the row; `None` when the sum does not fit in a machine word.
pub fn sum_triple<F: Fn(usize, usize, usize) -> usize>(row: &Row, fun: F) -> (sum: Option<usize>)
    requires
        fun.requires((row.a, row.x, row.m)),
        fun.requires((row.b, row.y, row.m)),
        fun.requires((row.c, row.z, row.m)),
    ensures
        exists|p: usize, q: usize, r: usize|
            {
                &&& fun.ensures((row.a, row.x, row.m), p)
                &&& fun.ensures((row.b, row.y, row.m), q)
                &&& fun.ensures((row.c, row.z, row.m), r)
                &&& sum == (if p + q + r <= usize::MAX {
                    Some((p + q + r) as usize)
                } else {
                    None
                })
            },
{
    let p = fun(row.a, row.x, row.m);
    let q = fun(row.b, row.y, row.m);
    let r = fun(row.c, row.z, row.m);
    let sum = match p.checked_add(q) {
        Some(pq) => pq.checked_add(r),
        None => None,
    };
    assert(fun.ensures((row.a, row.x, row.m), p) && fun.ensures((row.b, row.y, row.m), q)
        && fun.ensures((row.c, row.z, row.m), r) && sum == (if p + q + r <= usize::MAX {
        Some((p + q + r) as usize)
    } else {
        None
    }));
    sum
}

/// The number behind the `=` of a text such as `A=5`.
pub open spec fn kv_value(s: Seq<char>) -> Option<usize> {
    match split_once(s, '=') {
        Some((_, value)) => word(value),
        None => None,
    }
}

/// Reads the number behind the `=`.
pub fn read_kv(chars: &Vec<char>) -> (read: Option<usize>)
    ensures
        read == kv_value(chars@),
{
    match split_once_at(chars, '=') {
        Some((_, value)) => parse_word(&value),
        None => None,
    }
}

/// Reads the value of a pair such as `A=4`. The text has to spell one:
/// `read_kv` tells whether it does.
pub fn parse_kv(input: &str) -> (value: usize)
    requires
        kv_value(input@) is Some,
    ensures
        kv_value(input@) == Some(value),
{
    let chars = chars_of(input);
    read_kv(&chars).unwrap()
}

/// The row that a line of seven fields such as `A=4 B=4 ... M=11` spells.
pub open spec fn row_of(line: Seq<char>) -> Option<Row> {
    let f = fields(line);
    if f.len() == 7 && (forall|k: int| 0 <= k < 7 ==> kv_value(#[trigger] f[k]) is Some) {
        Some(
            Row {
                a: kv_value(f[0]).unwrap(),
                b: kv_value(f[1]).unwrap(),
                c: kv_value(f[2]).unwrap(),
                x: kv_value(f[3]).unwrap(),
                y: kv_value(f[4]).unwrap(),
                z: kv_value(f[5]).unwrap(),
                m: kv_value(f[6]).unwrap(),
            },
        )
    } else {
        None
    }
}

/// The rows that the lines of a text spell, if every line spells one.
pub open spec fn rows_of(text: Seq<char>) -> Option<Seq<Row>> {
    let ls = lines(text);
    if forall|k: int| 0 <= k < ls.len() ==> row_of(#[trigger] ls[k]) is Some {
        Some(Seq::new(ls.len(), |k: int| row_of(ls[k]).unwrap()))
    } else {
        None
    }
}

/// Reads one row.
pub fn read_row(line: &Vec<char>) -> (read: Option<Row>)
    ensures
        read == row_of(line@),
{
    let f = fields_of(line);
    if f.len() != 7 {
        return None;
    }
    let ghost views = pieces_view(f@);
    let mut values: Vec<usize> = Vec::new();
    let mut k: usize = 0;
    while k < 7
        invariant
            0 <= k <= 7,
            f@.len() == 7,
            views == pieces_view(f@),
            views == fields(line@),
            values@.len() == k,
            forall|j: int| 0 <= j < k ==> kv_value(#[trigger] views[j]) == Some(values@[j]),
        decreases 7 - k,
    {
        match read_kv(&f[k]) {
            Some(v) => {
                values.push(v);
            },
            None => {
                assert(kv_value(views[k as int]).is_none());
                return None;
            },
        }
        k += 1;
    }
    Some(
        Row {
            a: values[0],
            b: values[1],
            c: values[2],
            x: values[3],
            y: values[4],
            z: values[5],
            m: values[6],
        },
    )
}

/// Reads the rows of a text, one to a line. Every line has to spell a
/// row of seven values: `read_rows` tells whether each does.
pub fn parse_rows(input: &str) -> (rows: Vec<Row>)
    requires
        rows_of(input@) is Some,
    ensures
        rows_of(input@) == Some(rows@),
{
    read_rows(input).unwrap()
}

/// Reads the rows of a text, one to a line; `None` when a line does
/// not spell seven values.
pub fn read_rows(input: &str) -> (read: Option<Vec<Row>>)
    ensures
        match read {
            Some(v) => rows_of(input@) == Some(v@),
            None => rows_of(input@).is_none(),
        },
{
    let chars = chars_of(input);
    let ls = lines_of(&chars);
    let ghost views = pieces_view(ls@);
    let mut out: Vec<Row> = Vec::new();
    let mut k: usize = 0;
    while k < ls.len()
        invariant
            0 <= k <= ls.len(),
            views == pieces_view(ls@),
            views == lines(input@),
            out@.len() == k,
            forall|j: int| 0 <= j < k ==> row_of(#[trigger] views[j]) == Some(out@[j]),
        decreases ls.len() - k,
    {
        match read_row(&ls[k]) {
            Some(row) => {
                out.push(row);
            },
            None => {
                assert(row_of(views[k as int]).is_none());
                return None;
            },
        }
        k += 1;
    }
    assert(out@ =~= Seq::new(views.len(), |k: int| row_of(views[k]).unwrap()));
    Some(out)
}

/// The sum of the remainders of the first `k` powers.
pub open spec fn power_sum(n: usize, m: usize, k: nat) -> nat
    decreases k,
{
    if k == 0 {
        0
    } else {
        power_sum(n, m, (k - 1) as nat) + power_mod(n, m, k)
    }
}

/// The sum grows with the number of powers.
pub proof fn lemma_power_sum_grows(n: usize, m: usize, a: nat, b: nat)
    requires
        a <= b,
    ensures
        power_sum(n, m, a) <= power_sum(n, m, b),
    decreases b,
{
    if a < b {
        lemma_power_sum_grows(n, m, a, (b - 1) as nat);
    }
}

/// Where two powers leave the same remainder, the powers after them do
/// so too, and the sums over them are the same.
pub proof fn lemma_remainders_repeat(n: usize, m: usize, a: nat, b: nat, j: nat)
    requires
        power_mod(n, m, a) == power_mod(n, m, b),
    ensures
        power_mod(n, m, a + j) == power_mod(n, m, b + j),
        power_sum(n, m, a + j) - power_sum(n, m, a) == power_sum(n, m, b + j) - power_sum(n, m, b),
    decreases j,
{
    if j > 0 {
        lemma_remainders_repeat(n, m, a, b, (j - 1) as nat);
    }
}

/// Where power `a` and a later power `b` leave the same remainder, the
/// remainders repeat with the period `b - a`: after any number of whole
/// periods the remainder is the same, and every period adds the same sum.
pub proof fn lemma_whole_periods(n: usize, m: usize, a: nat, b: nat, periods: nat)
    requires
        a < b,
        power_mod(n, m, a) == power_mod(n, m, b),
    ensures
        power_mod(n, m, (b + periods * (b - a)) as nat) == power_mod(n, m, b),
        power_sum(n, m, (b + periods * (b - a)) as nat) == power_sum(n, m, b) + periods * (power_sum(
            n,
            m,
            b,
        ) - power_sum(n, m, a)),
    decreases periods,
{
    let p = (b - a) as nat;
    if periods > 0 {
        lemma_whole_periods(n, m, a, b, (periods - 1) as nat);
        let at = b + (periods - 1) * p;
        assert(at + p == b + periods * p) by (nonlinear_arith)
            requires
                at == b + (periods - 1) * p,
        ;
        lemma_remainders_repeat(n, m, a, at as nat, p);
        let one = power_sum(n, m, b) - power_sum(n, m, a);
        assert(periods * one == (periods - 1) * one + one) by (nonlinear_arith);
    } else {
        assert(0 * (b - a) == 0) by (nonlinear_arith);
        assert(0 * (power_sum(n, m, b) - power_sum(n, m, a)) == 0) by (nonlinear_arith);
    }
}

/// What the table of remainders seen holds: for a remainder, how many
/// powers were still to come when it was seen, and the sum up to then.
pub open spec fn seen_truly(
    seen: Map<usize, (usize, usize)>,
    n: usize,
    m: usize,
    exp: nat,
    left: nat,
) -> bool {
    forall|x: usize| #[trigger]
        seen.contains_key(x) ==> {
            let (then_left, then_sum) = seen[x];
            &&& left <= then_left <= exp
            &&& x == power_mod(n, m, (exp - then_left) as nat)
            &&& then_sum == power_sum(n, m, (exp - then_left) as nat)
        }
}

/// The sum of the remainders of the first `exp_val` powers of `n_val` on
/// division by `mod_val`. Periods of the remainders are added as a whole.
pub fn eni_3(n_val: usize, exp_val: usize, mod_val: usize) -> (total: usize)
    requires
        mod_val > 0,
        n_val * mod_val <= usize::MAX,
        power_sum(n_val, mod_val, exp_val as nat) <= usize::MAX,
    ensures
        total == power_sum(n_val, mod_val, exp_val as nat),
{
    let mut score_sum: usize = 0;
    let mut score: usize = 1;
    let mut iterations: usize = exp_val;
    let mut seen: HashMap<usize, (usize, usize)> = HashMap::new();
    while iterations > 0
        invariant
            0 <= iterations <= exp_val,
            mod_val > 0,
            n_val * mod_val <= usize::MAX,
            power_sum(n_val, mod_val, exp_val as nat) <= usize::MAX,
            score == power_mod(n_val, mod_val, (exp_val - iterations) as nat),
            score <= mod_val,
            score_sum == power_sum(n_val, mod_val, (exp_val - iterations) as nat),
            seen_truly(seen@, n_val, mod_val, exp_val as nat, iterations as nat),
        decreases iterations,
    {
        let ghost at = (exp_val - iterations + 1) as nat;
        assert(score * n_val <= usize::MAX) by (nonlinear_arith)
            requires
                score <= mod_val,
                n_val * mod_val <= usize::MAX,
        ;
        proof {
            lemma_power_sum_grows(n_val, mod_val, at, exp_val as nat);
        }
        score = (score * n_val) % mod_val;
        score_sum = score_sum + score;
        iterations -= 1;
        match seen.get(&score) {
            Some(found) => {
                let prev_iter = found.0;
                let prev_sum = found.1;
                let ghost before = (exp_val - prev_iter) as nat;
                assert(seen@.contains_key(score));
                assert(prev_iter > iterations);
                proof {
                    lemma_power_sum_grows(n_val, mod_val, before, at);
                }
                let period_len = prev_iter - iterations;
                let period_sum = score_sum - prev_sum;
                let full_periods = iterations / period_len;
                proof {
                    assert(at - before == period_len);
                    lemma_whole_periods(n_val, mod_val, before, at, full_periods as nat);
                    vstd::arithmetic::div_mod::lemma_fundamental_div_mod(
                        iterations as int,
                        period_len as int,
                    );
                    assert(full_periods * period_len == period_len * full_periods)
                        by (nonlinear_arith);
                    lemma_power_sum_grows(
                        n_val,
                        mod_val,
                        (at + full_periods * period_len) as nat,
                        exp_val as nat,
                    );
                }
                score_sum = score_sum + full_periods * period_sum;
                iterations = iterations % period_len;
            },
            None => {
                seen.insert(score, (iterations, score_sum));
            },
        }
    }
    score_sum
}

/// The remainders of the powers `exp`, `exp - 1` and so on, `count` of them.
pub open spec fn last_remainders(n: usize, m: usize, exp: nat, count: nat) -> Seq<u64> {
    Seq::new(count, |i: int| power_mod(n, m, (exp - i) as nat) as u64)
}

/// How many remainders `eni_2` writes down.
pub open spec fn kept_remainders(exp: nat) -> nat {
    if exp < 5 {
        exp
    } else {
        5
    }
}

/// What the table of remainders seen holds: for a remainder, how many
/// powers were still to come when it was seen.
pub open spec fn seen_before(seen: Map<usize, usize>, n: usize, m: usize, upto: nat, left: nat) -> bool {
    forall|x: usize| #[trigger]
        seen.contains_key(x) ==> left <= seen[x] <= upto && x == power_mod(
            n,
            m,
            (upto - seen[x]) as nat,
        )
}

/// The remainders of the last five of the first `exp_val` powers of
/// `n_val` on division by `mod_val`, or of all when there are fewer,
/// written one after the other from the highest power down and read as
/// one number. Periods of the remainders are passed over as a whole.
pub fn eni_2(n_val: usize, exp_val: usize, mod_val: usize) -> (joined: usize)
    requires
        mod_val > 0,
        n_val * mod_val <= usize::MAX,
        join_decimal(
            last_remainders(n_val, mod_val, exp_val as nat, kept_remainders(exp_val as nat)),
        ) <= usize::MAX,
    ensures
        joined == join_decimal(
            last_remainders(n_val, mod_val, exp_val as nat, kept_remainders(exp_val as nat)),
        ),
{
    let mut score: usize = 1;
    let lead: usize = if exp_val > 5 {
        exp_val - 5
    } else {
        0
    };
    let mut leading_iterations: usize = lead;
    let mut seen: HashMap<usize, usize> = HashMap::new();
    while leading_iterations > 0
        invariant
            0 <= leading_iterations <= lead,
            mod_val > 0,
            n_val * mod_val <= usize::MAX,
            score == power_mod(n_val, mod_val, (lead - leading_iterations) as nat),
            score <= mod_val,
            seen_before(seen@, n_val, mod_val, lead as nat, leading_iterations as nat),
        decreases leading_iterations,
    {
        let ghost at = (lead - leading_iterations + 1) as nat;
        assert(score * n_val <= usize::MAX) by (nonlinear_arith)
            requires
                score <= mod_val,
                n_val * mod_val <= usize::MAX,
        ;
        score = (score * n_val) % mod_val;
        leading_iterations -= 1;
        match seen.get(&score) {
            Some(found) => {
                let prev_iter = *found;
                let ghost before = (lead - prev_iter) as nat;
                assert(seen@.contains_key(score));
                let period_len = prev_iter - leading_iterations;
                proof {
                    let full = leading_iterations / period_len;
                    lemma_whole_periods(n_val, mod_val, before, at, full as nat);
                    vstd::arithmetic::div_mod::lemma_fundamental_div_mod(
                        leading_iterations as int,
                        period_len as int,
                    );
                    assert(full * period_len == period_len * full) by (nonlinear_arith);
                }
                leading_iterations = leading_iterations % period_len;
            },
            None => {
                seen.insert(score, leading_iterations);
            },
        }
    }
    let final_iterations: usize = if exp_val < 5 {
        exp_val
    } else {
        5
    };
    let mut rems: Vec<usize> = Vec::new();
    let mut k: usize = 0;
    while k < final_iterations
        invariant
            0 <= k <= final_iterations,
            lead + final_iterations == exp_val,
            mod_val > 0,
            n_val * mod_val <= usize::MAX,
            score == power_mod(n_val, mod_val, (lead + k) as nat),
            score <= mod_val,
            rems@.len() == k,
            forall|j: int|
                0 <= j < k ==> rems@[j] == power_mod(n_val, mod_val, (lead + j + 1) as nat),
        decreases final_iterations - k,
    {
        assert(score * n_val <= usize::MAX) by (nonlinear_arith)
            requires
                score <= mod_val,
                n_val * mod_val <= usize::MAX,
        ;
        score = (score * n_val) % mod_val;
        rems.push(score);
        k += 1;
    }
    assert(backwards(rems@) =~= last_remainders(
        n_val,
        mod_val,
        exp_val as nat,
        kept_remainders(exp_val as nat),
    ));
    concat_ints(rems.as_slice())
}

} // verus!
