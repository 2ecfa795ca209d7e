//! The arithmetic that the concurrency examples hand to worker threads.

use vstd::prelude::*;

verus! {

/// The sum of `values`, added from the left.
pub open spec fn sum_of(values: Seq<i64>) -> int
    decreases values.len(),
{
    if values.len() == 0 {
        0
    } else {
        sum_of(values.drop_last()) + values.last()
    }
}

/// Every running total, added from the left, fits in an `i64`.
pub open spec fn running_totals_fit(values: Seq<i64>) -> bool {
    forall|k: int|
        0 < k <= values.len() ==> i64::MIN <= #[trigger] sum_of(values.take(k)) <= i64::MAX
}

/// Adds `values` from the left; `None` where a running total leaves the
/// range of `i64`, which is where `Iterator::sum` would overflow.
pub fn checked_sum(values: &[i64]) -> (total: Option<i64>)
    ensures
        total == if running_totals_fit(values@) {
            Some(sum_of(values@) as i64)
        } else {
            None::<i64>
        },
{
    let mut total: i64 = 0;
    let mut index: usize = 0;
    while index < values.len()
        invariant
            index <= values@.len(),
            total == sum_of(values@.take(index as int)),
            forall|k: int|
                0 < k <= index ==> i64::MIN <= #[trigger] sum_of(values@.take(k)) <= i64::MAX,
        decreases values@.len() - index,
    {
        proof {
            assert(values@.take(index + 1).drop_last() =~= values@.take(index as int));
        }
        match total.checked_add(values[index]) {
            Some(next) => {
                total = next;
                index = index + 1;
            },
            None => {
                proof {
                    assert(!(i64::MIN <= sum_of(values@.take(index + 1)) <= i64::MAX));
                }
                return None;
            },
        }
    }
    proof {
        assert(values@.take(values@.len() as int) =~= values@);
    }
    Some(total)
}

} // verus!
