//! Numbers written one after the other in decimal and read as one number.

use vstd::prelude::*;

verus! {

/// How many decimal digits `n` is written with.
pub open spec fn decimal_width(n: nat) -> nat
    decreases n,
{
    if n < 10 {
        1
    } else {
        1 + decimal_width(n / 10)
    }
}

/// Ten to the power `k`.
pub open spec fn pow10(k: nat) -> nat
    decreases k,
{
    if k == 0 {
        1
    } else {
        10 * pow10((k - 1) as nat)
    }
}

/// The number read from the digits of `values` written one after the other.
pub open spec fn join_decimal(values: Seq<u64>) -> nat
    decreases values.len(),
{
    if values.len() == 0 {
        0
    } else {
        join_decimal(values.drop_last()) * pow10(decimal_width(values.last() as nat))
            + values.last() as nat
    }
}

/// A number as it is handed out: itself when it fits in 64 bits.
pub open spec fn fitting(n: nat) -> Option<u64> {
    if n <= u64::MAX {
        Some(n as u64)
    } else {
        None
    }
}

/// Powers of ten grow with the exponent, and none is zero.
pub proof fn lemma_pow10_grows(a: nat, b: nat)
    requires
        a <= b,
    ensures
        1 <= pow10(a) <= pow10(b),
    decreases b,
{
    if a < b {
        lemma_pow10_grows(a, (b - 1) as nat);
    } else if a > 0 {
        lemma_pow10_grows((a - 1) as nat, (a - 1) as nat);
    }
}

/// Writing more numbers behind never makes the number read smaller.
pub proof fn lemma_join_prefix(values: Seq<u64>, n: int)
    requires
        0 <= n <= values.len(),
    ensures
        join_decimal(values.take(n)) <= join_decimal(values),
    decreases values.len(),
{
    if n < values.len() {
        let head = values.drop_last();
        lemma_join_prefix(head, n);
        assert(head.take(n) =~= values.take(n));
        let p = pow10(decimal_width(values.last() as nat));
        lemma_pow10_grows(0, decimal_width(values.last() as nat));
        assert(join_decimal(head) * p >= join_decimal(head)) by (nonlinear_arith)
            requires
                p >= 1,
        ;
    } else {
        assert(values.take(n) =~= values);
    }
}

/// Ten to the number of digits of `n`, or `None` when that leaves 64 bits.
pub fn scale_of(n: u64) -> (scale: Option<u64>)
    ensures
        scale == fitting(pow10(decimal_width(n as nat))),
{
    let mut rest: u64 = n;
    let mut scale: u64 = 10;
    let ghost mut counted: nat = 0;
    assert(pow10(1) == 10) by {
        assert(pow10(0) == 1);
    }
    while rest >= 10
        invariant
            decimal_width(n as nat) == counted + decimal_width(rest as nat),
            scale == pow10(counted + 1),
        decreases rest,
    {
        assert(decimal_width(rest as nat) == 1 + decimal_width((rest / 10) as nat));
        rest = rest / 10;
        proof {
            counted = counted + 1;
            assert(decimal_width(rest as nat) >= 1);
            assert(pow10(counted + 1) == 10 * pow10(counted));
        }
        match scale.checked_mul(10) {
            Some(s) => {
                scale = s;
            },
            None => {
                proof {
                    lemma_pow10_grows(counted + 1, decimal_width(n as nat));
                }
                return None;
            },
        }
    }
    Some(scale)
}

/// The number read from the digits of `values` written one after the
/// other, or `None` when it does not fit in 64 bits.
pub fn join_numbers(values: &Vec<u64>) -> (joined: Option<u64>)
    ensures
        joined == fitting(join_decimal(values@)),
{
    let mut acc: u64 = 0;
    let mut i: usize = 0;
    while i < values.len()
        invariant
            0 <= i <= values.len(),
            acc == join_decimal(values@.take(i as int)),
        decreases values.len() - i,
    {
        let v = values[i];
        proof {
            let next = values@.take(i + 1);
            assert(next.drop_last() =~= values@.take(i as int));
            assert(next.last() == v);
            lemma_join_prefix(values@, i + 1);
            lemma_pow10_grows(0, decimal_width(v as nat));
        }
        let ghost p = pow10(decimal_width(v as nat));
        if acc == 0 {
            assert(0 * p == 0) by (nonlinear_arith);
            acc = v;
        } else {
            let scale = match scale_of(v) {
                Some(s) => s,
                None => {
                    assert(acc * p > u64::MAX) by (nonlinear_arith)
                        requires
                            acc >= 1,
                            p > u64::MAX,
                    ;
                    return None;
                },
            };
            let shifted = match acc.checked_mul(scale) {
                Some(s) => s,
                None => {
                    return None;
                },
            };
            acc = match shifted.checked_add(v) {
                Some(s) => s,
                None => {
                    return None;
                },
            };
        }
        i += 1;
    }
    assert(values@.take(i as int) =~= values@);
    Some(acc)
}

/// The size of a number, whatever its sign.
pub open spec fn magnitude(v: i64) -> u64 {
    if v >= 0 {
        v as u64
    } else {
        (-v) as u64
    }
}

/// The sizes of the numbers of `parts`.
pub open spec fn magnitudes(parts: Seq<i64>) -> Seq<u64> {
    Seq::new(parts.len(), |k: int| magnitude(parts[k]))
}

/// The number read from the text that writing `parts` one after the other
/// gives. Only the first may be negative: a minus sign further in is no
/// digit. The number read must fit in a signed 64-bit number.
pub open spec fn join_signed_value(parts: Seq<i64>) -> Option<int> {
    if parts.len() == 0 {
        None
    } else if exists|k: int| 1 <= k < parts.len() && parts[k] < 0 {
        None
    } else {
        let size = join_decimal(magnitudes(parts));
        if parts[0] < 0 {
            if size <= 0x8000_0000_0000_0000 {
                Some(-size)
            } else {
                None
            }
        } else {
            if size <= i64::MAX {
                Some(size as int)
            } else {
                None
            }
        }
    }
}

/// Reads the numbers of `parts`, written one after the other, as one
/// number; `None` when the text is no number or the number does not fit.
pub fn join_signed(parts: &Vec<i64>) -> (joined: Option<i64>)
    ensures
        match joined {
            Some(v) => join_signed_value(parts@) == Some(v as int),
            None => join_signed_value(parts@).is_none(),
        },
{
    if parts.len() == 0 {
        return None;
    }
    let mut sizes: Vec<u64> = Vec::new();
    let mut i: usize = 0;
    while i < parts.len()
        invariant
            0 <= i <= parts.len(),
            sizes@.len() == i,
            forall|k: int| 0 <= k < i ==> sizes@[k] == magnitude(parts@[k]),
            forall|k: int| 1 <= k < i ==> parts@[k] >= 0,
        decreases parts.len() - i,
    {
        let v = parts[i];
        if i > 0 && v < 0 {
            return None;
        }
        let size: u64 = if v >= 0 {
            v as u64
        } else if v == i64::MIN {
            0x8000_0000_0000_0000
        } else {
            (-v) as u64
        };
        sizes.push(size);
        i += 1;
    }
    assert(sizes@ =~= magnitudes(parts@));
    match join_numbers(&sizes) {
        None => None,
        Some(size) => {
            if parts[0] < 0 {
                if size < 0x8000_0000_0000_0000 {
                    Some(-(size as i64))
                } else if size == 0x8000_0000_0000_0000 {
                    Some(i64::MIN)
                } else {
                    None
                }
            } else {
                if size <= 0x7fff_ffff_ffff_ffff {
                    Some(size as i64)
                } else {
                    None
                }
            }
        },
    }
}

} // verus!
