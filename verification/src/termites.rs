//! Termites that turn into others: every day each termite is replaced by
//! the kinds that the rules for its own kind name.

use crate::text::{
    chars_of, lines, lines_of, pieces_view, split, split_at_each, split_once, split_once_at,
};
use vstd::prelude::*;

verus! {

/// A rule: a termite of kind `input` becomes one of each kind of `output`.
pub struct Rule {
    pub input: Vec<char>,
    pub output: Vec<Vec<char>>,
}

/// The kinds of a list, as sequences.
pub open spec fn kinds_view(kinds: Seq<Vec<char>>) -> Seq<Seq<char>> {
    Seq::new(kinds.len(), |k: int| kinds[k]@)
}

/// How many termites one termite of `kind` has become after `days` days.
pub open spec fn population(rules: Seq<Rule>, kind: Seq<char>, days: nat) -> nat
    decreases days, 0nat, 0nat,
{
    if days == 0 {
        1
    } else {
        offspring(rules, kind, (days - 1) as nat, rules.len())
    }
}

/// What becomes in `days` days of the termites that the first `upto`
/// rules put in the place of one termite of `kind`.
pub open spec fn offspring(rules: Seq<Rule>, kind: Seq<char>, days: nat, upto: nat) -> nat
    decreases days, 2nat, upto,
{
    if upto == 0 {
        0
    } else {
        offspring(rules, kind, days, (upto - 1) as nat) + (if rules[upto - 1].input@ == kind {
            brood(
                rules,
                kinds_view(rules[upto - 1].output@),
                days,
                rules[upto - 1].output@.len(),
            )
        } else {
            0nat
        })
    }
}

/// What becomes in `days` days of one termite of each of the first `upto` kinds.
pub open spec fn brood(rules: Seq<Rule>, kinds: Seq<Seq<char>>, days: nat, upto: nat) -> nat
    decreases days, 1nat, upto,
{
    if upto == 0 {
        0
    } else {
        brood(rules, kinds, days, (upto - 1) as nat) + population(rules, kinds[upto - 1], days)
    }
}

/// A kind without a rule has no offspring.
pub proof fn lemma_no_rule_no_offspring(rules: Seq<Rule>, kind: Seq<char>, days: nat, upto: nat)
    requires
        upto <= rules.len(),
        forall|r: int| 0 <= r < rules.len() ==> (#[trigger] rules[r]).input@ != kind,
    ensures
        offspring(rules, kind, days, upto) == 0,
    decreases upto,
{
    if upto > 0 {
        lemma_no_rule_no_offspring(rules, kind, days, (upto - 1) as nat);
    }
}

/// A number as it is handed out: itself when it fits in a machine word.
pub open spec fn fitting(n: nat) -> Option<usize> {
    if n <= usize::MAX {
        Some(n as usize)
    } else {
        None
    }
}

/// The sum of two numbers that may have left the machine word.
pub fn plus(a: Option<usize>, b: Option<usize>) -> (sum: Option<usize>)
    ensures
        forall|x: nat, y: nat|
            a == fitting(x) && b == fitting(y) ==> sum == #[trigger] fitting(x + y),
{
    match (a, b) {
        (Some(x), Some(y)) => x.checked_add(y),
        _ => None,
    }
}

/// Whether two kinds are the same.
pub fn same_kind(a: &Vec<char>, b: &Vec<char>) -> (same: bool)
    ensures
        same == (a@ == b@),
{
    if a.len() != b.len() {
        return false;
    }
    let mut i: usize = 0;
    while i < a.len()
        invariant
            0 <= i <= a.len(),
            a@.len() == b@.len(),
            forall|j: int| 0 <= j < i ==> a@[j] == b@[j],
        decreases a.len() - i,
    {
        if a[i] != b[i] {
            return false;
        }
        i += 1;
    }
    assert(a@ =~= b@);
    true
}

/// The row of a table holds, for every rule, what one termite of the
/// rule's kind has become after `days` days.
pub open spec fn row_for(row: Seq<Option<usize>>, rules: Seq<Rule>, days: nat) -> bool {
    &&& row.len() == rules.len()
    &&& forall|r: int|
        0 <= r < rules.len() ==> #[trigger] row[r] == fitting(
            population(rules, rules[r].input@, days),
        )
}

/// What one termite of `kind` has become after `days` days, read from
/// the row for that day.
fn population_of(rules: &Vec<Rule>, row: &Vec<Option<usize>>, kind: &Vec<char>, days: usize) -> (n:
    Option<usize>)
    requires
        row_for(row@, rules@, days as nat),
    ensures
        n == fitting(population(rules@, kind@, days as nat)),
{
    if days == 0 {
        return Some(1);
    }
    let mut r: usize = 0;
    while r < rules.len()
        invariant
            0 <= r <= rules.len(),
            row_for(row@, rules@, days as nat),
            forall|k: int| 0 <= k < r ==> (#[trigger] rules@[k]).input@ != kind@,
        decreases rules.len() - r,
    {
        if same_kind(&rules[r].input, kind) {
            return row[r];
        }
        r += 1;
    }
    proof {
        lemma_no_rule_no_offspring(rules@, kind@, (days - 1) as nat, rules@.len());
    }
    Some(0)
}

/// The row for the day after the day of `row`.
fn next_row(rules: &Vec<Rule>, row: &Vec<Option<usize>>, days: usize) -> (next: Vec<Option<usize>>)
    requires
        row_for(row@, rules@, days as nat),
        days < usize::MAX,
    ensures
        row_for(next@, rules@, (days + 1) as nat),
{
    let mut next: Vec<Option<usize>> = Vec::new();
    let mut r: usize = 0;
    while r < rules.len()
        invariant
            0 <= r <= rules.len(),
            row_for(row@, rules@, days as nat),
            next@.len() == r,
            forall|k: int|
                0 <= k < r ==> #[trigger] next@[k] == fitting(
                    population(rules@, rules@[k].input@, (days + 1) as nat),
                ),
        decreases rules.len() - r,
    {
        let kind = &rules[r].input;
        let mut total: Option<usize> = Some(0);
        let mut q: usize = 0;
        while q < rules.len()
            invariant
                0 <= q <= rules.len(),
                0 <= r < rules.len(),
                *kind == rules@[r as int].input,
                row_for(row@, rules@, days as nat),
                total == fitting(offspring(rules@, kind@, days as nat, q as nat)),
            decreases rules.len() - q,
        {
            if same_kind(&rules[q].input, kind) {
                let outputs = &rules[q].output;
                let mut young: Option<usize> = Some(0);
                let mut k: usize = 0;
                while k < outputs.len()
                    invariant
                        0 <= k <= outputs.len(),
                        0 <= q < rules.len(),
                        *outputs == rules@[q as int].output,
                        row_for(row@, rules@, days as nat),
                        young == fitting(
                            brood(rules@, kinds_view(outputs@), days as nat, k as nat),
                        ),
                    decreases outputs.len() - k,
                {
                    let one = population_of(rules, row, &outputs[k], days);
                    assert(kinds_view(outputs@)[k as int] == outputs@[k as int]@);
                    young = plus(young, one);
                    k += 1;
                }
                total = plus(total, young);
            }
            q += 1;
        }
        next.push(total);
        r += 1;
    }
    next
}

/// How many termites one termite of kind `starter` has become after
/// `days` days; `None` when the number leaves the machine word.
pub fn count_termites(rules: &Vec<Rule>, starter: &str, days: usize) -> (total: Option<usize>)
    ensures
        total == fitting(population(rules@, starter@, days as nat)),
{
    let kind = chars_of(starter);
    let mut row: Vec<Option<usize>> = Vec::new();
    let mut r: usize = 0;
    while r < rules.len()
        invariant
            0 <= r <= rules.len(),
            row@.len() == r,
            forall|k: int| 0 <= k < r ==> #[trigger] row@[k] == Some(1usize),
        decreases rules.len() - r,
    {
        row.push(Some(1));
        r += 1;
    }
    let mut day: usize = 0;
    while day < days
        invariant
            0 <= day <= days,
            row_for(row@, rules@, day as nat),
        decreases days - day,
    {
        row = next_row(rules, &row, day);
        day += 1;
    }
    population_of(rules, &row, &kind, days)
}

/// The rule that a line such as `A:B,C` spells: a kind, and the kinds
/// that a termite of that kind turns into.
pub open spec fn rule_of(line: Seq<char>) -> Option<(Seq<char>, Seq<Seq<char>>)> {
    match split_once(line, ':') {
        Some((input, output)) => Some((input, split(output, ','))),
        None => None,
    }
}

/// The rules that the lines spell, if each spells one.
pub open spec fn rules_of(rows: Seq<Seq<char>>) -> Option<Seq<(Seq<char>, Seq<Seq<char>>)>> {
    if forall|k: int| 0 <= k < rows.len() ==> rule_of(#[trigger] rows[k]) is Some {
        Some(Seq::new(rows.len(), |k: int| rule_of(rows[k]).unwrap()))
    } else {
        None
    }
}

/// The rules as they are read.
pub open spec fn rules_view(rules: Seq<Rule>) -> Seq<(Seq<char>, Seq<Seq<char>>)> {
    Seq::new(rules.len(), |k: int| (rules[k].input@, kinds_view(rules[k].output@)))
}

/// Reads the rules, one from each line. Every line has to hold a `:`;
/// `read` tells whether each does.
pub fn parse(input: &str) -> (rules: Vec<Rule>)
    requires
        rules_of(lines(input@)) is Some,
    ensures
        rules_of(lines(input@)) == Some(rules_view(rules@)),
{
    read(input).unwrap()
}

/// Reads the rules, one from each line; `None` when a line has no `:`.
pub fn read(input: &str) -> (rules: Option<Vec<Rule>>)
    ensures
        match rules {
            Some(r) => rules_of(lines(input@)) == Some(rules_view(r@)),
            None => rules_of(lines(input@)).is_none(),
        },
{
    let chars = chars_of(input);
    let rows = lines_of(&chars);
    let ghost view = pieces_view(rows@);
    let mut rules: Vec<Rule> = Vec::new();
    let mut k: usize = 0;
    while k < rows.len()
        invariant
            0 <= k <= rows.len(),
            view == pieces_view(rows@),
            view == lines(input@),
            rules@.len() == k,
            forall|j: int|
                0 <= j < k ==> rule_of(#[trigger] view[j]) == Some(
                    (rules@[j].input@, kinds_view(rules@[j].output@)),
                ),
        decreases rows.len() - k,
    {
        assert(view[k as int] == rows@[k as int]@);
        match split_once_at(&rows[k], ':') {
            Some((input, rest)) => {
                let output = split_at_each(&rest, ',');
                assert(kinds_view(output@) =~= pieces_view(output@));
                rules.push(Rule { input, output });
            },
            None => {
                assert(rule_of(view[k as int]).is_none());
                return None;
            },
        }
        k += 1;
    }
    assert(rules_view(rules@) =~= Seq::new(view.len(), |k: int| rule_of(view[k]).unwrap()));
    Some(rules)
}

} // verus!
