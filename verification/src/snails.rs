//! Snails on the diagonals of a board: every day a snail moves one step
//! along its diagonal, and from the end of the diagonal back to its start.
//! A snail is at the end of its diagonal when its `y` is 1.

use crate::text::{
    chars_of, lines, lines_of, parse_word, pieces_view, split_once, split_once_at, strip_prefix,
    without_prefix, word,
};
use vstd::prelude::*;

verus! {

/// A snail by its place on the board.
#[derive(Clone, Copy, Debug, PartialEq, Eq, Structural)]
pub struct Snail {
    pub x: usize,
    pub y: usize,
}

/// The snail that a line such as `x=3 y=5` spells.
pub open spec fn snail_of(line: Seq<char>) -> Option<Snail> {
    match split_once(line, ' ') {
        Some((a, b)) => match (strip_prefix(a, "x="@), strip_prefix(b, "y="@)) {
            (Some(x), Some(y)) => match (word(x), word(y)) {
                (Some(x), Some(y)) => Some(Snail { x, y }),
                _ => None,
            },
            _ => None,
        },
        None => None,
    }
}

/// The snails that the lines of a text spell, if every line spells one.
pub open spec fn snails_of(text: Seq<char>) -> Option<Seq<Snail>> {
    let ls = lines(text);
    if forall|k: int| 0 <= k < ls.len() ==> snail_of(#[trigger] ls[k]) is Some {
        Some(Seq::new(ls.len(), |k: int| snail_of(ls[k]).unwrap()))
    } else {
        None
    }
}

/// Reads one snail.
pub fn parse_snail(line: &Vec<char>) -> (snail: Option<Snail>)
    ensures
        snail == snail_of(line@),
{
    match split_once_at(line, ' ') {
        Some((a, b)) => match (without_prefix(&a, "x="), without_prefix(&b, "y=")) {
            (Some(x), Some(y)) => match (parse_word(&x), parse_word(&y)) {
                (Some(x), Some(y)) => Some(Snail { x, y }),
                _ => None,
            },
            _ => None,
        },
        None => None,
    }
}

/// Reads the snails of a text, one to a line.
pub fn parse(input: &str) -> (snails: Option<Vec<Snail>>)
    ensures
        match snails {
            Some(v) => snails_of(input@) == Some(v@),
            None => snails_of(input@).is_none(),
        },
{
    let chars = chars_of(input);
    let ls = lines_of(&chars);
    let ghost views = pieces_view(ls@);
    let mut out: Vec<Snail> = Vec::new();
    let mut k: usize = 0;
    while k < ls.len()
        invariant
            0 <= k <= ls.len(),
            views == pieces_view(ls@),
            views == lines(input@),
            out@.len() == k,
            forall|j: int| 0 <= j < k ==> snail_of(#[trigger] views[j]) == Some(out@[j]),
        decreases ls.len() - k,
    {
        match parse_snail(&ls[k]) {
            Some(snail) => {
                out.push(snail);
            },
            None => {
                assert(snail_of(views[k as int]).is_none());
                return None;
            },
        }
        k += 1;
    }
    assert(out@ =~= Seq::new(views.len(), |k: int| snail_of(views[k]).unwrap()));
    Some(out)
}

impl Snail {
    /// The snail stands on the board, and its diagonal can be numbered.
    pub open spec fn placed(&self) -> bool {
        self.x >= 1 && self.y >= 1 && self.x + self.y <= usize::MAX
    }

    /// How many places the diagonal of the snail has.
    pub open spec fn period(&self) -> int {
        self.x + self.y - 1
    }

    /// How many steps the snail is from the end of its diagonal.
    pub open spec fn offset(&self) -> int {
        self.y - 1
    }

    /// The snail a day later.
    pub open spec fn stepped(&self) -> Snail {
        if self.y == 1 {
            Snail { x: 1, y: self.x }
        } else {
            Snail { x: (self.x + 1) as usize, y: (self.y - 1) as usize }
        }
    }

    /// The snail `days` days later.
    pub open spec fn after(&self, days: nat) -> Snail
        decreases days,
    {
        if days == 0 {
            *self
        } else {
            self.after((days - 1) as nat).stepped()
        }
    }

    /// A snail stays on its diagonal.
    pub proof fn lemma_stays(&self, days: nat)
        requires
            self.placed(),
        ensures
            self.after(days).placed(),
            self.after(days).period() == self.period(),
        decreases days,
    {
        if days > 0 {
            self.lemma_stays((days - 1) as nat);
        }
    }

    /// Where the snail is `days` days later.
    pub fn walk(&self, days: usize) -> (then: Snail)
        requires
            self.placed(),
        ensures
            then == self.after(days as nat),
    {
        let mut snail = *self;
        let mut day: usize = 0;
        while day < days
            invariant
                0 <= day <= days,
                self.placed(),
                snail == self.after(day as nat),
            decreases days - day,
        {
            proof {
                self.lemma_stays(day as nat);
            }
            if snail.y == 1 {
                snail.y = snail.x;
                snail.x = 1;
            } else {
                snail.x += 1;
                snail.y -= 1;
            }
            day += 1;
        }
        snail
    }
}

/// The sum of `x + 100 * y` over the first `upto` snails as they stand
/// `days` days later.
pub open spec fn checksum(snails: Seq<Snail>, days: nat, upto: nat) -> nat
    decreases upto,
{
    if upto == 0 {
        0
    } else {
        checksum(snails, days, (upto - 1) as nat) + snails[upto - 1].after(days).x as nat + 100
            * (snails[upto - 1].after(days).y as nat)
    }
}

/// The checksum grows with the snails counted.
pub proof fn lemma_checksum_grows(snails: Seq<Snail>, days: nat, a: nat, b: nat)
    requires
        a <= b,
    ensures
        checksum(snails, days, a) <= checksum(snails, days, b),
    decreases b,
{
    if a < b {
        lemma_checksum_grows(snails, days, a, (b - 1) as nat);
    }
}

/// The sum of `x + 100 * y` over all snails after `days` days; `None`
/// when the sum leaves the machine word.
pub fn checksum_after(snails: &Vec<Snail>, days: usize) -> (sum: Option<usize>)
    requires
        forall|k: int| 0 <= k < snails@.len() ==> (#[trigger] snails@[k]).placed(),
    ensures
        sum == (if checksum(snails@, days as nat, snails@.len()) <= usize::MAX {
            Some(checksum(snails@, days as nat, snails@.len()) as usize)
        } else {
            None
        }),
{
    let mut sum: usize = 0;
    let mut k: usize = 0;
    while k < snails.len()
        invariant
            0 <= k <= snails.len(),
            forall|j: int| 0 <= j < snails@.len() ==> (#[trigger] snails@[j]).placed(),
            sum == checksum(snails@, days as nat, k as nat),
        decreases snails.len() - k,
    {
        let then = snails[k].walk(days);
        let term = match then.y.checked_mul(100) {
            Some(hundred) => hundred.checked_add(then.x),
            None => None,
        };
        let next = match term {
            Some(t) => sum.checked_add(t),
            None => None,
        };
        sum = match next {
            Some(s) => s,
            None => {
                proof {
                    lemma_checksum_grows(snails@, days as nat, (k + 1) as nat, snails@.len());
                }
                return None;
            },
        };
        k += 1;
    }
    Some(sum)
}

/// The first of the times `time`, `time + step`, `time + 2 * step` and so
/// on, `tries` of them, at which a snail with the given period and offset
/// is at the end of its diagonal, as long as the times fit in a machine word.
pub open spec fn first_hit(time: int, step: int, period: int, offset: int, tries: nat) -> Option<int>
    decreases tries,
{
    if tries == 0 || time > usize::MAX {
        None
    } else if time % period == offset {
        Some(time)
    } else {
        first_hit(time + step, step, period, offset, (tries - 1) as nat)
    }
}

/// The least of the numbers from `from` up to `period` that makes
/// `common` a multiple of `period`.
pub open spec fn least_reps(common: int, period: int, from: int) -> int
    decreases period - from,
{
    if from >= period || (from * common) % period == 0 {
        from
    } else {
        least_reps(common, period, from + 1)
    }
}

/// The time from which on the first `upto` snails are at the end of
/// their diagonals together again and again, and the period of that;
/// `None` when there is no such time or a number leaves the machine word.
pub open spec fn sync(snails: Seq<Snail>, upto: nat) -> Option<(int, int)>
    decreases upto,
{
    if upto == 0 {
        None
    } else if upto == 1 {
        Some((snails[0].offset(), snails[0].period()))
    } else {
        match sync(snails, (upto - 1) as nat) {
            None => None,
            Some((time, common)) => {
                let snail = snails[upto - 1];
                match first_hit(time, common, snail.period(), snail.offset(), snail.period() as nat) {
                    None => None,
                    Some(hit) => {
                        let reps = least_reps(common, snail.period(), 1);
                        if common * reps <= usize::MAX {
                            Some((hit, common * reps))
                        } else {
                            None
                        }
                    },
                }
            },
        }
    }
}

/// A hit is one of the times tried, and the snail is at its end then.
pub proof fn lemma_hit_hits(time: int, step: int, period: int, offset: int, tries: nat)
    requires
        first_hit(time, step, period, offset, tries) is Some,
        period > 0,
        step >= 0,
        time >= 0,
    ensures
        first_hit(time, step, period, offset, tries).unwrap() % period == offset,
        exists|k: int|
            0 <= k && first_hit(time, step, period, offset, tries).unwrap() == time + #[trigger] (k
                * step),
        time <= first_hit(time, step, period, offset, tries).unwrap() <= usize::MAX,
    decreases tries,
{
    if time % period == offset {
        assert(time == time + 0 * step) by (nonlinear_arith);
    } else {
        lemma_hit_hits(time + step, step, period, offset, (tries - 1) as nat);
        let hit = first_hit(time + step, step, period, offset, (tries - 1) as nat).unwrap();
        let k = choose|k: int| 0 <= k && hit == time + step + #[trigger] (k * step);
        assert((k + 1) * step == k * step + step) by (nonlinear_arith);
        assert(hit == time + (k + 1) * step);
    }
}

/// The least number found makes `common` a multiple of the period.
pub proof fn lemma_reps_divide(common: int, period: int, from: int)
    requires
        1 <= from <= period,
        common >= 0,
    ensures
        from <= least_reps(common, period, from) <= period,
        (least_reps(common, period, from) * common) % period == 0,
    decreases period - from,
{
    if from >= period {
        assert((period * common) % period == 0) by {
            vstd::arithmetic::div_mod::lemma_mod_multiples_basic(common, period);
            assert(period * common == common * period) by (nonlinear_arith);
        }
    } else if (from * common) % period != 0 {
        lemma_reps_divide(common, period, from + 1);
    }
}

/// Adding a multiple of the period does not change where a snail is.
pub proof fn lemma_same_place(time: int, k: int, common: int, period: int)
    requires
        period > 0,
        common % period == 0,
    ensures
        (time + k * common) % period == time % period,
{
    let q = common / period;
    vstd::arithmetic::div_mod::lemma_fundamental_div_mod(common, period);
    assert(k * common == (k * q) * period) by (nonlinear_arith)
        requires
            common == period * q,
    ;
    vstd::arithmetic::div_mod::lemma_mod_multiples_vanish(k * q, time, period);
}

/// At the time found every snail counted is at the end of its diagonal,
/// and the period found is a multiple of the period of each.
pub proof fn lemma_sync_meets(snails: Seq<Snail>, upto: nat, i: int)
    requires
        upto <= snails.len(),
        forall|k: int| 0 <= k < snails.len() ==> (#[trigger] snails[k]).placed(),
        sync(snails, upto) is Some,
        0 <= i < upto,
    ensures
        sync(snails, upto).unwrap().0 % snails[i].period() == snails[i].offset(),
        sync(snails, upto).unwrap().1 % snails[i].period() == 0,
        sync(snails, upto).unwrap().0 >= 0,
        sync(snails, upto).unwrap().1 >= 1,
    decreases upto,
{
    assert(snails[i].placed());
    assert(snails[upto - 1].placed());
    if upto == 1 {
        vstd::arithmetic::div_mod::lemma_small_mod(
            snails[0].offset() as nat,
            snails[0].period() as nat,
        );
        vstd::arithmetic::div_mod::lemma_mod_self_0(snails[0].period());
    } else {
        let (time, common) = sync(snails, (upto - 1) as nat).unwrap();
        let snail = snails[upto - 1];
        lemma_sync_meets(snails, (upto - 1) as nat, 0);
        let hit = first_hit(time, common, snail.period(), snail.offset(), snail.period() as nat).unwrap();
        lemma_hit_hits(time, common, snail.period(), snail.offset(), snail.period() as nat);
        let reps = least_reps(common, snail.period(), 1);
        lemma_reps_divide(common, snail.period(), 1);
        if i == upto - 1 {
            assert(common * reps == reps * common) by (nonlinear_arith);
        } else {
            lemma_sync_meets(snails, (upto - 1) as nat, i);
            let k = choose|k: int| 0 <= k && hit == time + #[trigger] (k * common);
            lemma_same_place(time, k, common, snails[i].period());
            let q = common / snails[i].period();
            vstd::arithmetic::div_mod::lemma_fundamental_div_mod(common, snails[i].period());
            assert(common * reps == (q * reps) * snails[i].period()) by (nonlinear_arith)
                requires
                    common == snails[i].period() * q,
            ;
            vstd::arithmetic::div_mod::lemma_mod_multiples_basic(q * reps, snails[i].period());
        }
        assert(common * reps >= 1) by (nonlinear_arith)
            requires
                common >= 1,
                reps >= 1,
        ;
    }
}

/// The first time at which all snails are at the end of their diagonals,
/// found snail by snail; 0 without snails, and `None` when the snails
/// never meet there or a number leaves the machine word.
pub fn time_to_sync_snails(snails: &Vec<Snail>) -> (time: Option<usize>)
    requires
        forall|k: int| 0 <= k < snails@.len() ==> (#[trigger] snails@[k]).placed(),
    ensures
        time == (if snails@.len() == 0 {
            Some(0usize)
        } else {
            match sync(snails@, snails@.len()) {
                Some((t, _)) => Some(t as usize),
                None => None,
            }
        }),
        time is Some ==> forall|i: int|
            0 <= i < snails@.len() ==> time.unwrap() as int % (#[trigger] snails@[i]).period()
                == snails@[i].offset(),
{
    if snails.len() == 0 {
        return Some(0);
    }
    let mut time: usize = snails[0].y - 1;
    let mut common_period: usize = snails[0].x + snails[0].y - 1;
    let mut n: usize = 1;
    while n < snails.len()
        invariant
            1 <= n <= snails.len(),
            forall|k: int| 0 <= k < snails@.len() ==> (#[trigger] snails@[k]).placed(),
            sync(snails@, n as nat) == Some((time as int, common_period as int)),
            common_period >= 1,
        decreases snails.len() - n,
    {
        let snail = snails[n];
        assert(snail.placed());
        let offset = snail.y - 1;
        let period = snail.x + snail.y - 1;
        let ghost start = time as int;
        let mut tries: usize = period;
        let mut found = false;
        while tries > 0 && !found
            invariant
                0 <= tries <= period,
                1 <= n < snails@.len(),
                snail == snails@[n as int],
                sync(snails@, n as nat) == Some((start, common_period as int)),
                period == snail.period(),
                offset == snail.offset(),
                period >= 1,
                first_hit(start, common_period as int, period as int, offset as int, period as nat)
                    == first_hit(
                    time as int,
                    common_period as int,
                    period as int,
                    offset as int,
                    tries as nat,
                ),
                found ==> tries > 0 && time % period == offset,
            decreases tries, (if found {
                0int
            } else {
                1int
            }),
        {
            if time % period == offset {
                found = true;
            } else {
                time = match time.checked_add(common_period) {
                    Some(t) => t,
                    None => {
                        assert(first_hit(
                            time + common_period,
                            common_period as int,
                            period as int,
                            offset as int,
                            (tries - 1) as nat,
                        ).is_none());
                        assert(sync(snails@, (n + 1) as nat).is_none());
                        proof {
                            lemma_sync_stays_none(snails@, (n + 1) as nat, snails@.len());
                        }
                        return None;
                    },
                };
                tries -= 1;
            }
        }
        if !found {
            assert(sync(snails@, (n + 1) as nat).is_none());
            proof {
                lemma_sync_stays_none(snails@, (n + 1) as nat, snails@.len());
            }
            return None;
        }
        let mut reps: usize = 1;
        while reps < period && !multiple(reps, common_period, period)
            invariant
                1 <= reps <= period,
                period >= 1,
                least_reps(common_period as int, period as int, 1) == least_reps(
                    common_period as int,
                    period as int,
                    reps as int,
                ),
            decreases period - reps,
        {
            reps += 1;
        }
        common_period = match common_period.checked_mul(reps) {
            Some(c) => c,
            None => {
                assert(sync(snails@, (n + 1) as nat).is_none());
                proof {
                    lemma_sync_stays_none(snails@, (n + 1) as nat, snails@.len());
                }
                return None;
            },
        };
        proof {
            lemma_sync_meets(snails@, (n + 1) as nat, 0);
        }
        n += 1;
    }
    proof {
        assert forall|i: int| 0 <= i < snails@.len() implies time as int % (
        #[trigger] snails@[i]).period() == snails@[i].offset() by {
            lemma_sync_meets(snails@, snails@.len(), i);
        }
    }
    Some(time)
}

/// Whether `reps` times `common` is a multiple of `period`.
fn multiple(reps: usize, common: usize, period: usize) -> (yes: bool)
    requires
        period >= 1,
    ensures
        yes == ((reps * common) % (period as int) == 0),
{
    let a: u128 = (reps % period) as u128;
    let b: u128 = (common % period) as u128;
    proof {
        vstd::arithmetic::div_mod::lemma_mul_mod_noop(reps as int, common as int, period as int);
        assert(a * b <= 0xffff_ffff_ffff_ffff * 0xffff_ffff_ffff_ffff) by (nonlinear_arith)
            requires
                0 <= a <= 0xffff_ffff_ffff_ffff,
                0 <= b <= 0xffff_ffff_ffff_ffff,
        ;
    }
    (a * b) % (period as u128) == 0
}

/// Snails that do not meet do not meet when more snails are counted.
pub proof fn lemma_sync_stays_none(snails: Seq<Snail>, from: nat, upto: nat)
    requires
        1 <= from <= upto,
        sync(snails, from).is_none(),
    ensures
        sync(snails, upto).is_none(),
    decreases upto,
{
    if from < upto {
        lemma_sync_stays_none(snails, from, (upto - 1) as nat);
    }
}

} // verus!
