use vstd::prelude::*;
use vstd::arithmetic::div_mod::{lemma_div_by_multiple_is_strongly_ordered, lemma_div_is_ordered, lemma_div_by_multiple};
use vstd::arithmetic::mul::lemma_mul_inequality;

verus! {

/// What a scan reports while it runs.
#[derive(Debug, Clone, Copy, PartialEq, Eq, Structural)]
pub enum Status {
    /// Share of the volume's used space covered so far, in whole percent.
    Reading { percentage: usize },
    /// The scan has returned.
    Done,
}

/// The percentage that a status stands for; completion stands for 100.
pub open spec fn status_value(s: Status) -> nat {
    match s {
        Status::Reading { percentage } => percentage as nat,
        Status::Done => 100,
    }
}

/// The percentages that a run of statuses stands for.
pub open spec fn status_values(s: Seq<Status>) -> Seq<nat> {
    s.map_values(|x: Status| status_value(x))
}

/// `counted` bytes out of `used`, in whole percent, rounded down and capped at
/// 100; with nothing used the scan counts as complete.
pub open spec fn percentage_of(counted: nat, used: nat) -> nat {
    if used == 0 || counted >= used {
        100
    } else {
        counted * 100 / used
    }
}

pub open spec fn non_decreasing(s: Seq<nat>) -> bool {
    forall|i: int, j: int| 0 <= i <= j < s.len() ==> s[i] <= s[j]
}

/// Computes `percentage_of(counted, used)`.
pub fn percentage(counted: u64, used: u64) -> (r: usize)
    ensures
        r == percentage_of(counted as nat, used as nat),
        r <= 100,
{
    if used == 0 || counted >= used {
        return 100;
    }
    proof {
        lemma_percentage_bounded(counted as nat, used as nat);
        assert(counted * 100 <= u64::MAX * 100) by {
            lemma_mul_inequality(counted as int, u64::MAX as int, 100);
        }
    }
    let q: u128 = (counted as u128) * 100 / (used as u128);
    q as usize
}

/// A percentage never exceeds 100.
pub proof fn lemma_percentage_bounded(counted: nat, used: nat)
    ensures
        percentage_of(counted, used) <= 100,
        used > 0 && counted < used ==> percentage_of(counted, used) < 100,
{
    if used > 0 && counted < used {
        assert(counted * 100 < used * 100) by {
            lemma_mul_inequality(counted as int, used as int, 100);
            assert(counted * 100 != used * 100) by (nonlinear_arith)
                requires
                    counted < used,
            ;
        }
        lemma_div_by_multiple_is_strongly_ordered((counted * 100) as int, (used * 100) as int, 100, used as int);
        lemma_div_by_multiple(100, used as int);
        assert(used * 100 == 100 * used) by (nonlinear_arith);
    }
}

/// Counting more bytes never lowers the percentage.
pub proof fn lemma_percentage_monotone(a: nat, b: nat, used: nat)
    requires
        a <= b,
    ensures
        percentage_of(a, used) <= percentage_of(b, used),
{
    lemma_percentage_bounded(a, used);
    if used > 0 && b < used {
        lemma_mul_inequality(a as int, b as int, 100);
        lemma_div_is_ordered((a * 100) as int, (b * 100) as int, used as int);
    }
}

} // verus!
