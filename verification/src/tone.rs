//! Index logic of tone-curve fitting: where an empty bin takes its value from, and the
//! window that smoothing averages over.
use vstd::prelude::*;

verus! {

/// `Some(j)` when `j` is the nearest bin below `i` that received samples, `None` when
/// no bin below `i` did.
pub open spec fn is_left_source(counts: Seq<u32>, i: int, res: Option<usize>) -> bool {
    match res {
        Some(j) => j < i && counts[j as int] > 0 && forall|k: int| j < k < i ==> #[trigger] counts[k]
            == 0,
        None => forall|k: int| 0 <= k < i ==> #[trigger] counts[k] == 0,
    }
}

/// `Some(j)` when `j` is the nearest bin above `i` that received samples, `None` when
/// no bin above `i` did.
pub open spec fn is_right_source(counts: Seq<u32>, i: int, res: Option<usize>) -> bool {
    match res {
        Some(j) => i < j < counts.len() && counts[j as int] > 0 && forall|k: int|
            i < k < j ==> #[trigger] counts[k] == 0,
        None => forall|k: int| i < k < counts.len() ==> #[trigger] counts[k] == 0,
    }
}

/// The nearest non-empty bins on either side of bin `i`, from which an empty bin's
/// value is interpolated (or copied, when only one side has one).
pub fn nearest_filled_bins(counts: &Vec<u32>, i: usize) -> (res: (Option<usize>, Option<usize>))
    requires
        i < counts@.len(),
    ensures
        is_left_source(counts@, i as int, res.0),
        is_right_source(counts@, i as int, res.1),
{
    let n = counts.len();
    let mut left: Option<usize> = None;
    let mut j: usize = i;
    while j > 0
        invariant_except_break
            left is None,
            forall|k: int| j <= k < i ==> #[trigger] counts@[k] == 0,
        invariant
            i < n == counts@.len(),
            0 <= j <= i,
        ensures
            is_left_source(counts@, i as int, left),
        decreases j,
    {
        if counts[j - 1] > 0 {
            left = Some(j - 1);
            break;
        }
        j -= 1;
    }
    let mut right: Option<usize> = None;
    let mut j: usize = i + 1;
    while j < n
        invariant_except_break
            right is None,
            forall|k: int| i < k < j ==> #[trigger] counts@[k] == 0,
        invariant
            i < n == counts@.len(),
            i + 1 <= j <= n,
        ensures
            is_right_source(counts@, i as int, right),
        decreases n - j,
    {
        if counts[j] > 0 {
            right = Some(j);
            break;
        }
        j += 1;
    }
    (left, right)
}

/// The bins `start..end` that smoothing averages for bin `i` of an `n`-bin curve: up to
/// `window / 2` bins on each side, cut at the ends of the curve.
pub fn smoothing_window(i: usize, n: usize, window: usize) -> (range: (usize, usize))
    requires
        i < n,
        i + window / 2 + 1 <= usize::MAX,
    ensures
        range.0 == if i >= window / 2 {
            i - window / 2
        } else {
            0
        },
        range.1 == if i + window / 2 + 1 <= n {
            i + window / 2 + 1
        } else {
            n as int
        },
        range.0 <= i < range.1 <= n,
{
    let half = window / 2;
    let start = if i >= half { i - half } else { 0 };
    let end = if i + half + 1 <= n { i + half + 1 } else { n };
    (start, end)
}

} // verus!
