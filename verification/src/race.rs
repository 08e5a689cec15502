//! Races of devices that gather essence: every step changes the power of a
//! device by one or leaves it, and the power after the step is gathered.

use crate::text::{
    chars_of, lines, lines_of, pieces_view, split, split_at_each, split_once, split_once_at, text_of,
};
use vstd::prelude::*;

verus! {

/// What a device does at a step of its plan.
#[derive(Clone, Copy, Debug, PartialEq, Eq, Hash, Structural)]
pub enum Device {
    Plus,
    Minus,
    Equal,
}

/// A segment of a track. On `Plus` and `Minus` the track decides; on
/// `Equal` and on the start `S` the device does.
#[derive(Clone, Copy, Debug, PartialEq, Eq, Structural)]
pub enum Segment {
    Plus,
    Minus,
    Equal,
    S,
}

/// A plan: what the device does step by step, over and over.
pub type Plan = Vec<Device>;

/// A device in a race, with its name and its plan.
pub struct Race {
    pub id: String,
    pub devices: Plan,
}

/// The power every device starts with.
pub const START_POWER: i64 = 10;

/// The change that a device asks for.
pub open spec fn device_change(device: Device) -> int {
    match device {
        Device::Plus => 1,
        Device::Minus => -1,
        Device::Equal => 0,
    }
}

/// The change at a segment of the track for a device that asks for `device`.
pub open spec fn track_change(segment: Segment, device: Device) -> int {
    match segment {
        Segment::Plus => 1,
        Segment::Minus => -1,
        Segment::Equal | Segment::S => device_change(device),
    }
}

/// A power that never falls below nothing.
pub open spec fn floored(power: int) -> int {
    if power < 0 {
        0
    } else {
        power
    }
}

/// The power after the first `steps` steps of the plan.
pub open spec fn power_after(devices: Seq<Device>, steps: nat) -> int
    decreases steps,
{
    if steps == 0 {
        START_POWER as int
    } else {
        floored(power_after(devices, (steps - 1) as nat) + device_change(devices[steps - 1]))
    }
}

/// The essence gathered over the first `steps` steps of the plan.
pub open spec fn gathered(devices: Seq<Device>, steps: nat) -> int
    decreases steps,
{
    if steps == 0 {
        0
    } else {
        gathered(devices, (steps - 1) as nat) + power_after(devices, steps)
    }
}

/// The power after the first `steps` steps round the track, track and plan
/// both starting over when they end.
pub open spec fn track_power(track: Seq<Segment>, devices: Seq<Device>, steps: nat) -> int
    decreases steps,
{
    if steps == 0 {
        START_POWER as int
    } else {
        floored(
            track_power(track, devices, (steps - 1) as nat) + track_change(
                track[(steps - 1) % (track.len() as int)],
                devices[(steps - 1) % (devices.len() as int)],
            ),
        )
    }
}

/// The essence gathered over the first `steps` steps round the track.
pub open spec fn track_gathered(track: Seq<Segment>, devices: Seq<Device>, steps: nat) -> int
    decreases steps,
{
    if steps == 0 {
        0
    } else {
        track_gathered(track, devices, (steps - 1) as nat) + track_power(track, devices, steps)
    }
}

/// Power is never negative, and what is gathered never shrinks.
pub proof fn lemma_gathered_grows(devices: Seq<Device>, a: nat, b: nat)
    requires
        a <= b,
    ensures
        0 <= power_after(devices, b),
        0 <= gathered(devices, a) <= gathered(devices, b),
        b > 0 ==> power_after(devices, b) <= gathered(devices, b),
    decreases b,
{
    if b > 0 {
        lemma_gathered_grows(devices, 0, (b - 1) as nat);
        if a < b {
            lemma_gathered_grows(devices, a, (b - 1) as nat);
        }
    }
}

/// On a track too, power is never negative and what is gathered never shrinks.
pub proof fn lemma_track_gathered_grows(
    track: Seq<Segment>,
    devices: Seq<Device>,
    a: nat,
    b: nat,
)
    requires
        a <= b,
    ensures
        0 <= track_power(track, devices, b),
        0 <= track_gathered(track, devices, a) <= track_gathered(track, devices, b),
        b > 0 ==> track_power(track, devices, b) <= track_gathered(track, devices, b),
    decreases b,
{
    if b > 0 {
        lemma_track_gathered_grows(track, devices, 0, (b - 1) as nat);
        if a < b {
            lemma_track_gathered_grows(track, devices, a, (b - 1) as nat);
        }
    }
}

impl Race {
    /// What the race gathers on a track of `track` run `repeats` times.
    /// Without a plan or without a track nothing is gathered.
    pub open spec fn track_score(&self, track: Seq<Segment>, repeats: usize) -> int {
        if self.devices@.len() == 0 || track.len() == 0 {
            0
        } else {
            track_gathered(track, self.devices@, (track.len() * repeats) as nat)
        }
    }

    /// The essence gathered over one run of the plan.
    pub fn score(&self) -> (total: i32)
        requires
            gathered(self.devices@, self.devices@.len()) <= i32::MAX,
        ensures
            total == gathered(self.devices@, self.devices@.len()),
    {
        let mut acc: i32 = 10;
        let mut total: i32 = 0;
        let mut k: usize = 0;
        while k < self.devices.len()
            invariant
                0 <= k <= self.devices.len(),
                gathered(self.devices@, self.devices@.len()) <= i32::MAX,
                acc == power_after(self.devices@, k as nat),
                total == gathered(self.devices@, k as nat),
                0 <= acc,
                0 <= total,
            decreases self.devices.len() - k,
        {
            proof {
                lemma_gathered_grows(self.devices@, (k + 1) as nat, self.devices@.len());
                lemma_gathered_grows(self.devices@, k as nat, (k + 1) as nat);
            }
            let change: i32 = match self.devices[k] {
                Device::Plus => 1,
                Device::Minus => -1,
                Device::Equal => 0,
            };
            let raw = acc + change;
            acc = if raw < 0 {
                0
            } else {
                raw
            };
            total = total + acc;
            k += 1;
        }
        total
    }

    /// The essence gathered on `repeats` rounds of `track`, the plan
    /// starting over whenever it ends.
    pub fn score_on_track(&self, track: &[Segment], repeats: usize) -> (total: i64)
        requires
            track@.len() * repeats <= usize::MAX,
            self.track_score(track@, repeats) <= i64::MAX,
        ensures
            total == self.track_score(track@, repeats),
    {
        if self.devices.len() == 0 || track.len() == 0 {
            return 0;
        }
        let steps: usize = track.len() * repeats;
        let mut acc: i64 = 10;
        let mut total: i64 = 0;
        let mut k: usize = 0;
        while k < steps
            invariant
                0 <= k <= steps,
                self.devices@.len() > 0,
                track@.len() > 0,
                track_gathered(track@, self.devices@, steps as nat) <= i64::MAX,
                acc == track_power(track@, self.devices@, k as nat),
                total == track_gathered(track@, self.devices@, k as nat),
                0 <= acc,
                0 <= total,
            decreases steps - k,
        {
            proof {
                lemma_track_gathered_grows(track@, self.devices@, (k + 1) as nat, steps as nat);
                lemma_track_gathered_grows(track@, self.devices@, k as nat, (k + 1) as nat);
            }
            let seg = track[k % track.len()];
            let dev = self.devices[k % self.devices.len()];
            let change: i64 = match seg {
                Segment::Plus => 1,
                Segment::Minus => -1,
                Segment::Equal | Segment::S => match dev {
                    Device::Plus => 1,
                    Device::Minus => -1,
                    Device::Equal => 0,
                },
            };
            let raw = acc + change;
            acc = if raw < 0 {
                0
            } else {
                raw
            };
            total = total + acc;
            k += 1;
        }
        total
    }
}

/// Every plan that begins with `current` and goes on with `p` times
/// `Plus`, `m` times `Minus` and `e` times `Equal` in some order: first
/// those that go on with `Plus`, then with `Minus`, then with `Equal`.
pub open spec fn arrangements(current: Seq<Device>, p: nat, m: nat, e: nat) -> Seq<Seq<Device>>
    decreases p + m + e,
{
    if p == 0 && m == 0 && e == 0 {
        seq![current]
    } else {
        (if p > 0 {
            arrangements(current.push(Device::Plus), (p - 1) as nat, m, e)
        } else {
            Seq::empty()
        }) + (if m > 0 {
            arrangements(current.push(Device::Minus), p, (m - 1) as nat, e)
        } else {
            Seq::empty()
        }) + (if e > 0 {
            arrangements(current.push(Device::Equal), p, m, (e - 1) as nat)
        } else {
            Seq::empty()
        })
    }
}

/// How often `device` stands in the plan.
pub open spec fn times_in(plan: Seq<Device>, device: Device) -> nat
    decreases plan.len(),
{
    if plan.len() == 0 {
        0
    } else {
        times_in(plan.drop_last(), device) + (if plan.last() == device {
            1nat
        } else {
            0nat
        })
    }
}

/// Every arrangement holds what it began with and, beyond it, each device
/// as often as asked for.
pub proof fn lemma_arrangement_counts(current: Seq<Device>, p: nat, m: nat, e: nat, k: int)
    requires
        0 <= k < arrangements(current, p, m, e).len(),
    ensures
        arrangements(current, p, m, e)[k].len() == current.len() + p + m + e,
        times_in(arrangements(current, p, m, e)[k], Device::Plus) == times_in(
            current,
            Device::Plus,
        ) + p,
        times_in(arrangements(current, p, m, e)[k], Device::Minus) == times_in(
            current,
            Device::Minus,
        ) + m,
        times_in(arrangements(current, p, m, e)[k], Device::Equal) == times_in(
            current,
            Device::Equal,
        ) + e,
    decreases p + m + e,
{
    if !(p == 0 && m == 0 && e == 0) {
        let with_plus = if p > 0 {
            arrangements(current.push(Device::Plus), (p - 1) as nat, m, e)
        } else {
            Seq::empty()
        };
        let with_minus = if m > 0 {
            arrangements(current.push(Device::Minus), p, (m - 1) as nat, e)
        } else {
            Seq::empty()
        };
        if k < with_plus.len() {
            let longer = current.push(Device::Plus);
            assert(longer.drop_last() =~= current);
            lemma_arrangement_counts(longer, (p - 1) as nat, m, e, k);
        } else if k < with_plus.len() + with_minus.len() {
            let longer = current.push(Device::Minus);
            assert(longer.drop_last() =~= current);
            lemma_arrangement_counts(longer, p, (m - 1) as nat, e, k - with_plus.len());
        } else {
            let longer = current.push(Device::Equal);
            assert(longer.drop_last() =~= current);
            lemma_arrangement_counts(
                longer,
                p,
                m,
                (e - 1) as nat,
                k - with_plus.len() - with_minus.len(),
            );
        }
    }
}

/// The plans of a list, as sequences.
pub open spec fn plans_view(plans: Seq<Plan>) -> Seq<Seq<Device>> {
    Seq::new(plans.len(), |k: int| plans[k]@)
}

/// The plan `current` with `device` behind it.
fn extended(current: &Plan, device: Device) -> (longer: Plan)
    ensures
        longer@ == current@.push(device),
{
    let mut longer: Plan = Vec::new();
    let mut i: usize = 0;
    while i < current.len()
        invariant
            0 <= i <= current.len(),
            longer@ == current@.take(i as int),
        decreases current.len() - i,
    {
        longer.push(current[i]);
        assert(longer@ =~= current@.take(i + 1));
        i += 1;
    }
    assert(current@.take(i as int) =~= current@);
    longer.push(device);
    longer
}

/// Moves the plans of `more` behind those of `plans`.
fn append_plans(plans: &mut Vec<Plan>, more: Vec<Plan>)
    ensures
        plans_view(final(plans)@) == plans_view(old(plans)@) + plans_view(more@),
{
    let mut more = more;
    let ghost all = plans_view(more@);
    let ghost start = plans_view(plans@);
    let mut stack: Vec<Plan> = Vec::new();
    while more.len() > 0
        invariant
            plans_view(more@) + plans_view(stack@).reverse() == all,
        decreases more.len(),
    {
        let ghost m0 = plans_view(more@);
        let ghost s0 = plans_view(stack@);
        let last = more.pop().unwrap();
        stack.push(last);
        assert(plans_view(more@) + plans_view(stack@).reverse() =~= m0 + s0.reverse());
    }
    assert(plans_view(stack@).reverse() =~= all);
    while stack.len() > 0
        invariant
            plans_view(plans@) + plans_view(stack@).reverse() == start + all,
        decreases stack.len(),
    {
        let ghost p0 = plans_view(plans@);
        let ghost s0 = plans_view(stack@);
        let next = stack.pop().unwrap();
        plans.push(next);
        assert(plans_view(plans@) + plans_view(stack@).reverse() =~= p0 + s0.reverse());
    }
    assert(plans_view(plans@) =~= start + all);
}

/// Every plan that begins with `current` and goes on with the given
/// numbers of each device.
pub fn generate(current: Plan, p: usize, m: usize, e: usize) -> (plans: Vec<Plan>)
    requires
        p + m + e <= usize::MAX,
    ensures
        plans_view(plans@) == arrangements(current@, p as nat, m as nat, e as nat),
    decreases p + m + e,
{
    let mut plans: Vec<Plan> = Vec::new();
    if p == 0 && m == 0 && e == 0 {
        plans.push(current);
        assert(plans_view(plans@) =~= seq![current@]);
        return plans;
    }
    if p > 0 {
        let ncurrent = extended(&current, Device::Plus);
        append_plans(&mut plans, generate(ncurrent, p - 1, m, e));
    }
    if m > 0 {
        let ncurrent = extended(&current, Device::Minus);
        append_plans(&mut plans, generate(ncurrent, p, m - 1, e));
    }
    if e > 0 {
        let ncurrent = extended(&current, Device::Equal);
        append_plans(&mut plans, generate(ncurrent, p, m, e - 1));
    }
    assert(plans_view(plans@) =~= arrangements(current@, p as nat, m as nat, e as nat));
    plans
}

/// Every plan of eleven steps with five times `Plus`, three times `Minus`
/// and three times `Equal`.
pub fn get_valid_action_plans() -> (plans: Vec<Plan>)
    ensures
        plans_view(plans@) == arrangements(Seq::<Device>::empty(), 5, 3, 3),
{
    generate(Vec::new(), 5, 3, 3)
}

/// The device that a sign stands for: `+`, `-` or `=`.
pub open spec fn device_of(sign: Seq<char>) -> Option<Device> {
    if sign == seq!['+'] {
        Some(Device::Plus)
    } else if sign == seq!['-'] {
        Some(Device::Minus)
    } else if sign == seq!['='] {
        Some(Device::Equal)
    } else {
        None
    }
}

/// The plan that a list such as `+,-,=` spells.
pub open spec fn plan_of(list: Seq<char>) -> Option<Seq<Device>> {
    let signs = split(list, ',');
    if forall|k: int| 0 <= k < signs.len() ==> device_of(#[trigger] signs[k]) is Some {
        Some(Seq::new(signs.len(), |k: int| device_of(signs[k]).unwrap()))
    } else {
        None
    }
}

/// What a line such as `A:+,-,=` spells: a name and a plan.
pub open spec fn race_of(line: Seq<char>) -> Option<(Seq<char>, Seq<Device>)> {
    match split_once(line, ':') {
        Some((id, list)) => match plan_of(list) {
            Some(plan) => Some((id, plan)),
            None => None,
        },
        None => None,
    }
}

/// Reads one sign.
pub fn read_device(sign: &Vec<char>) -> (device: Option<Device>)
    ensures
        device == device_of(sign@),
{
    if sign.len() != 1 {
        return None;
    }
    let c = sign[0];
    assert(sign@ =~= seq![c]);
    if c == '+' {
        Some(Device::Plus)
    } else if c == '-' {
        Some(Device::Minus)
    } else if c == '=' {
        Some(Device::Equal)
    } else {
        None
    }
}

/// Reads a plan.
pub fn read_plan(list: &Vec<char>) -> (plan: Option<Plan>)
    ensures
        match plan {
            Some(p) => plan_of(list@) == Some(p@),
            None => plan_of(list@).is_none(),
        },
{
    let signs = split_at_each(list, ',');
    let ghost views = pieces_view(signs@);
    let mut out: Plan = Vec::new();
    let mut k: usize = 0;
    while k < signs.len()
        invariant
            0 <= k <= signs.len(),
            views == pieces_view(signs@),
            views == split(list@, ','),
            out@.len() == k,
            forall|j: int| 0 <= j < k ==> device_of(#[trigger] views[j]) == Some(out@[j]),
        decreases signs.len() - k,
    {
        match read_device(&signs[k]) {
            Some(d) => {
                out.push(d);
            },
            None => {
                assert(device_of(views[k as int]).is_none());
                return None;
            },
        }
        k += 1;
    }
    assert(out@ =~= Seq::new(views.len(), |k: int| device_of(views[k]).unwrap()));
    Some(out)
}

/// Reads the races of a text, one to a line; `None` when some line
/// spells none.
pub fn parse(input: &str) -> (races: Option<Vec<Race>>)
    ensures
        match races {
            Some(v) => v@.len() == lines(input@).len() && forall|k: int|
                0 <= k < v@.len() ==> race_of(lines(input@)[k]) == Some(
                    ((#[trigger] v@[k]).id@, v@[k].devices@),
                ),
            None => exists|k: int|
                0 <= k < lines(input@).len() && race_of(#[trigger] lines(input@)[k]).is_none(),
        },
{
    let chars = chars_of(input);
    let ls = lines_of(&chars);
    let ghost views = pieces_view(ls@);
    let mut out: Vec<Race> = Vec::new();
    let mut k: usize = 0;
    while k < ls.len()
        invariant
            0 <= k <= ls.len(),
            views == pieces_view(ls@),
            views == lines(input@),
            out@.len() == k,
            forall|j: int|
                0 <= j < k ==> race_of(views[j]) == Some(
                    ((#[trigger] out@[j]).id@, out@[j].devices@),
                ),
        decreases ls.len() - k,
    {
        let read = match split_once_at(&ls[k], ':') {
            Some((id, list)) => match read_plan(&list) {
                Some(devices) => Some(Race { id: text_of(&id), devices }),
                None => None,
            },
            None => None,
        };
        match read {
            Some(race) => {
                out.push(race);
            },
            None => {
                assert(race_of(views[k as int]).is_none());
                return None;
            },
        }
        k += 1;
    }
    Some(out)
}

/// The most steps for which what is gathered is sure to fit in 64 bits.
pub const MOST_STEPS: usize = 3_000_000_000;

/// In `k` steps the power grows by at most `k`, and no more than `k`
/// times that power is gathered.
pub proof fn lemma_track_bound(track: Seq<Segment>, devices: Seq<Device>, k: nat)
    ensures
        0 <= track_power(track, devices, k) <= START_POWER + k,
        0 <= track_gathered(track, devices, k) <= k * (START_POWER + k),
    decreases k,
{
    if k > 0 {
        lemma_track_bound(track, devices, (k - 1) as nat);
        assert((k - 1) * (START_POWER + (k - 1)) + (START_POWER + k) <= k * (START_POWER + k))
            by (nonlinear_arith)
            requires
                k >= 1,
                START_POWER == 10,
        ;
    }
}

/// How many of the first `upto` plans gather more than `rival` on
/// `repeats` rounds of the track.
pub open spec fn better_among(
    plans: Seq<Seq<Device>>,
    track: Seq<Segment>,
    repeats: usize,
    rival: i64,
    upto: nat,
) -> nat
    decreases upto,
{
    if upto == 0 {
        0
    } else {
        better_among(plans, track, repeats, rival, (upto - 1) as nat) + (if track.len() > 0
            && track_gathered(track, plans[upto - 1], (track.len() * repeats) as nat) > rival {
            1nat
        } else {
            0nat
        })
    }
}

/// How many of the plans of five `Plus`, three `Minus` and three `Equal`
/// gather more than `rival` on `repeats` rounds of the track.
pub fn count_better_plans(track: &Vec<Segment>, repeats: usize, rival: i64) -> (count: usize)
    requires
        track@.len() * repeats <= MOST_STEPS,
        rival >= 0,
    ensures
        count == better_among(
            arrangements(Seq::<Device>::empty(), 5, 3, 3),
            track@,
            repeats,
            rival,
            arrangements(Seq::<Device>::empty(), 5, 3, 3).len(),
        ),
{
    let plans = get_valid_action_plans();
    let ghost all = plans_view(plans@);
    let mut count: usize = 0;
    let mut k: usize = 0;
    while k < plans.len()
        invariant
            0 <= k <= plans.len(),
            all == plans_view(plans@),
            all == arrangements(Seq::<Device>::empty(), 5, 3, 3),
            track@.len() * repeats <= MOST_STEPS,
            rival >= 0,
            count <= k,
            count == better_among(all, track@, repeats, rival, k as nat),
        decreases plans.len() - k,
    {
        proof {
            lemma_arrangement_counts(Seq::<Device>::empty(), 5, 3, 3, k as int);
            lemma_track_bound(track@, all[k as int], (track@.len() * repeats) as nat);
            let n = (track@.len() * repeats) as int;
            assert(n * (START_POWER + n) <= i64::MAX) by (nonlinear_arith)
                requires
                    0 <= n <= 3_000_000_000,
                    START_POWER == 10,
            ;
        }
        assert(all[k as int] == plans@[k as int]@);
        let devices = extended_none(&plans[k]);
        let race = Race { id: String::new(), devices };
        let score = race.score_on_track(track.as_slice(), repeats);
        if score > rival {
            count += 1;
        }
        k += 1;
    }
    count
}

/// A copy of a plan.
fn extended_none(plan: &Plan) -> (copy: Plan)
    ensures
        copy@ == plan@,
{
    let mut copy: Plan = Vec::new();
    let mut i: usize = 0;
    while i < plan.len()
        invariant
            0 <= i <= plan.len(),
            copy@ == plan@.take(i as int),
        decreases plan.len() - i,
    {
        copy.push(plan[i]);
        assert(copy@ =~= plan@.take(i + 1));
        i += 1;
    }
    assert(plan@.take(i as int) =~= plan@);
    copy
}

} // verus!
