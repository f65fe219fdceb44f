//! Duration classes: the histogram bins, the severities and percentiles over the bins.

use vstd::prelude::*;
use vstd::arithmetic::power::pow;

verus! {

/// Number of finite bin bounds.
pub const BOUND_COUNT: usize = 19;

/// Number of histogram bins: one below each bound and one above the last.
pub const BIN_COUNT: usize = 20;

/// Number of severities.
pub const SEVERITY_COUNT: usize = 4;

/// Upper bounds of the histogram bins, in nanoseconds.
pub const HIST_BOUNDS: [u64; 19] = [
    1_000, 2_000, 5_000, 10_000, 20_000, 50_000, 100_000, 200_000, 500_000,
    1_000_000, 2_000_000, 5_000_000, 10_000_000, 20_000_000, 50_000_000,
    100_000_000, 200_000_000, 500_000_000, 1_000_000_000,
];

/// The first bin at or after `from` whose bound lies above `ns`; the last bin has no bound.
pub open spec fn first_bin_above(ns: int, from: int) -> int
    decreases BOUND_COUNT - from,
{
    if from >= BOUND_COUNT {
        BOUND_COUNT as int
    } else if ns < HIST_BOUNDS@[from] {
        from
    } else {
        first_bin_above(ns, from + 1)
    }
}

/// The histogram bin of a duration.
pub open spec fn hist_bin(ns: u64) -> int {
    first_bin_above(ns as int, 0)
}

/// The severity of a duration: below 10 us, below 100 us, below 1 ms, or above.
pub open spec fn severity(ns: u64) -> int {
    if ns < 10_000 {
        0
    } else if ns < 100_000 {
        1
    } else if ns < 1_000_000 {
        2
    } else {
        3
    }
}

/// The histogram bin of a duration: the first whose bound lies above it.
pub fn hist_bucket_index(ns: u64) -> (bin: usize)
    ensures
        bin == hist_bin(ns),
        bin < BIN_COUNT,
        bin < BOUND_COUNT ==> ns < HIST_BOUNDS@[bin as int],
        forall|j: int| 0 <= j < bin ==> HIST_BOUNDS@[j] <= ns,
{
    let mut bin: usize = 0;
    while bin < BOUND_COUNT && ns >= HIST_BOUNDS[bin]
        invariant
            bin <= BOUND_COUNT,
            first_bin_above(ns as int, bin as int) == hist_bin(ns),
            forall|j: int| 0 <= j < bin ==> HIST_BOUNDS@[j] <= ns,
        decreases BOUND_COUNT - bin,
    {
        bin += 1;
    }
    bin
}

/// The severity of a duration.
pub fn severity_index(ns: u64) -> (index: usize)
    ensures
        index == severity(ns),
        index < SEVERITY_COUNT,
{
    if ns < 10_000 {
        0
    } else if ns < 100_000 {
        1
    } else if ns < 1_000_000 {
        2
    } else {
        3
    }
}

/// The sum of a sequence of counts.
pub open spec fn sum(counts: Seq<u32>) -> int
    decreases counts.len(),
{
    if counts.len() == 0 {
        0
    } else {
        sum(counts.drop_last()) + counts.last()
    }
}

/// The events in the first `n` bins.
pub open spec fn cumulative(histogram: Seq<u32>, n: int) -> int {
    sum(histogram.take(n))
}

/// The bound reported for a bin of a histogram with `bins` bins. Past the last bound, and where
/// there is no such bin, the last bound is reported.
pub open spec fn bin_bound(bin: int, bins: int) -> u64 {
    if 0 <= bin < bins && bin < BOUND_COUNT {
        HIST_BOUNDS@[bin]
    } else {
        HIST_BOUNDS@[BOUND_COUNT - 1]
    }
}

/// The first bin at or after `from` up to which at least `target` events lie, or the number of
/// bins if there is none.
pub open spec fn bin_reaching(histogram: Seq<u32>, target: u64, from: int) -> int
    decreases histogram.len() - from,
{
    if from >= histogram.len() || cumulative(histogram, from + 1) >= target {
        from
    } else {
        bin_reaching(histogram, target, from + 1)
    }
}

/// The bound of the bin in which the event of rank `target` lies; zero if there are no events.
pub open spec fn percentile(histogram: Seq<u32>, total: u64, target: u64) -> u64 {
    if total == 0 {
        0
    } else {
        bin_bound(bin_reaching(histogram, target, 0), histogram.len() as int)
    }
}

/// The running total stays in range up to the bin that reaches `target`.
pub open spec fn running_total_fits(histogram: Seq<u32>, target: u64) -> bool {
    forall|n: int|
        0 <= n < histogram.len() && #[trigger] cumulative(histogram, n) < target
            ==> cumulative(histogram, n + 1) <= u64::MAX
}

/// Taking one bin more adds its count.
pub proof fn lemma_cumulative_step(histogram: Seq<u32>, n: int)
    requires
        0 <= n < histogram.len(),
    ensures
        cumulative(histogram, n + 1) == cumulative(histogram, n) + histogram[n],
{
    assert(histogram.take(n + 1).drop_last() =~= histogram.take(n));
}

/// Counting more bins counts no fewer events.
pub proof fn lemma_cumulative_monotone(histogram: Seq<u32>, m: int, n: int)
    requires
        0 <= m <= n <= histogram.len(),
    ensures
        0 <= cumulative(histogram, m) <= cumulative(histogram, n),
    decreases n,
{
    if m < n {
        lemma_cumulative_monotone(histogram, m, n - 1);
        lemma_cumulative_step(histogram, n - 1);
    } else if n > 0 {
        lemma_cumulative_monotone(histogram, m - 1, n - 1);
        lemma_cumulative_step(histogram, n - 1);
    }
}

/// Replacing one count changes the sum by the difference.
pub proof fn lemma_sum_update(counts: Seq<u32>, i: int, count: u32)
    requires
        0 <= i < counts.len(),
    ensures
        sum(counts.update(i, count)) == sum(counts) - counts[i] + count,
    decreases counts.len(),
{
    let changed = counts.update(i, count);
    if i == counts.len() - 1 {
        assert(changed.drop_last() =~= counts.drop_last());
    } else {
        lemma_sum_update(counts.drop_last(), i, count);
        assert(changed.drop_last() =~= counts.drop_last().update(i, count));
    }
}

/// No count exceeds the sum.
pub proof fn lemma_sum_bounds(counts: Seq<u32>, i: int)
    requires
        0 <= i < counts.len(),
    ensures
        counts[i] <= sum(counts),
{
    assert(counts.take(counts.len() as int) =~= counts);
    lemma_cumulative_step(counts, i);
    lemma_cumulative_monotone(counts, 0, i);
    lemma_cumulative_monotone(counts, i + 1, counts.len() as int);
}

/// Zero counts sum to zero.
pub proof fn lemma_sum_zero(counts: Seq<u32>)
    requires
        forall|i: int| 0 <= i < counts.len() ==> counts[i] == 0,
    ensures
        sum(counts) == 0,
    decreases counts.len(),
{
    if counts.len() > 0 {
        lemma_sum_zero(counts.drop_last());
    }
}

/// Estimates a percentile from the histogram: `target` is the rank that the percentile asks for.
pub fn approx_percentile(histogram: &[u32], total: u64, target: u64) -> (ns: u64)
    requires
        total > 0 ==> running_total_fits(histogram@, target),
    ensures
        ns == percentile(histogram@, total, target),
{
    if total == 0 {
        return 0;
    }
    let mut reached: u64 = 0;
    let mut i: usize = 0;
    while i < histogram.len()
        invariant
            i <= histogram.len(),
            total > 0,
            running_total_fits(histogram@, target),
            reached == cumulative(histogram@, i as int),
            i == 0 || reached < target,
            bin_reaching(histogram@, target, i as int) == bin_reaching(histogram@, target, 0),
        decreases histogram.len() - i,
    {
        proof {
            lemma_cumulative_step(histogram@, i as int);
        }
        reached += histogram[i] as u64;
        if reached >= target {
            if i < BOUND_COUNT {
                return HIST_BOUNDS[i];
            }
            return HIST_BOUNDS[BOUND_COUNT - 1];
        }
        i += 1;
    }
    HIST_BOUNDS[BOUND_COUNT - 1]
}

/// What `first_bin_above` finds: no bound from `from` up to there lies above `ns`, the next does.
pub proof fn lemma_first_bin_above(ns: int, from: int)
    requires
        0 <= from <= BOUND_COUNT,
    ensures
        from <= first_bin_above(ns, from) <= BOUND_COUNT,
        first_bin_above(ns, from) < BOUND_COUNT ==> ns < HIST_BOUNDS@[first_bin_above(ns, from)],
        forall|j: int| from <= j < first_bin_above(ns, from) ==> HIST_BOUNDS@[j] <= ns,
    decreases BOUND_COUNT - from,
{
    if from < BOUND_COUNT && ns >= HIST_BOUNDS@[from] {
        lemma_first_bin_above(ns, from + 1);
    }
}

/// The bin bounds ascend.
pub proof fn law_bounds_ascend(i: int, j: int)
    requires
        0 <= i < j < BOUND_COUNT,
    ensures
        HIST_BOUNDS@[i] < HIST_BOUNDS@[j],
    decreases j - i,
{
    if i + 1 < j {
        law_bounds_ascend(i, j - 1);
    }
    assert(HIST_BOUNDS@[j - 1] < HIST_BOUNDS@[j]);
}

/// A bin holds exactly the durations from the bound below it up to its own bound.
pub proof fn law_bin_holds_its_range(ns: u64, bin: int)
    requires
        0 <= bin < BIN_COUNT,
    ensures
        hist_bin(ns) == bin <==> (bin > 0 ==> HIST_BOUNDS@[bin - 1] <= ns) && (bin < BOUND_COUNT
            ==> ns < HIST_BOUNDS@[bin]),
{
    lemma_first_bin_above(ns as int, 0);
    let found = hist_bin(ns);
    if found < bin - 1 {
        law_bounds_ascend(found, bin - 1);
    }
    if bin < found - 1 {
        law_bounds_ascend(bin, found - 1);
    }
}

/// The first bin of a severity; past the last severity, the number of bins.
pub open spec fn first_bin_of(sev: int) -> int {
    if sev <= 0 {
        0
    } else if sev == 1 {
        4
    } else if sev == 2 {
        7
    } else if sev == 3 {
        10
    } else {
        BIN_COUNT as int
    }
}

/// The events in the bins of a severity.
pub open spec fn sum_of_severity(histogram: Seq<u32>, sev: int) -> int {
    sum(histogram.subrange(first_bin_of(sev), first_bin_of(sev + 1)))
}

/// Replacing one count changes the sum of its severity, and of no other.
pub proof fn lemma_severity_sum_update(histogram: Seq<u32>, bin: int, count: u32, sev: int)
    requires
        histogram.len() == BIN_COUNT,
        0 <= bin < BIN_COUNT,
        0 <= sev < SEVERITY_COUNT,
    ensures
        sum_of_severity(histogram.update(bin, count), sev) == sum_of_severity(histogram, sev) + if (
        first_bin_of(sev) <= bin < first_bin_of(sev + 1)) {
            count - histogram[bin]
        } else {
            0
        },
{
    let lo = first_bin_of(sev);
    let hi = first_bin_of(sev + 1);
    let part = histogram.subrange(lo, hi);
    let changed = histogram.update(bin, count).subrange(lo, hi);
    if lo <= bin < hi {
        assert(changed =~= part.update(bin - lo, count));
        lemma_sum_update(part, bin - lo, count);
    } else {
        assert(changed =~= part);
    }
}

/// The severity of a duration follows from its bin: no bin spans two severities.
pub proof fn law_severity_follows_bin(ns: u64)
    ensures
        first_bin_of(severity(ns)) <= hist_bin(ns) < first_bin_of(severity(ns) + 1),
{
    lemma_first_bin_above(ns as int, 0);
    let bin = hist_bin(ns);
    assert(HIST_BOUNDS@[3] == 10_000 && HIST_BOUNDS@[6] == 100_000 && HIST_BOUNDS@[9]
        == 1_000_000);
    if bin < BOUND_COUNT {
        if bin < 3 {
            law_bounds_ascend(bin, 3);
        }
        if bin < 6 {
            law_bounds_ascend(bin, 6);
        }
        if bin < 9 {
            law_bounds_ascend(bin, 9);
        }
    }
}

/// What `bin_reaching` finds: the first bin that reaches the target.
pub proof fn lemma_bin_reaching(histogram: Seq<u32>, target: u64, from: int)
    requires
        0 <= from <= histogram.len(),
    ensures
        from <= bin_reaching(histogram, target, from) <= histogram.len(),
        bin_reaching(histogram, target, from) < histogram.len() ==> cumulative(
            histogram,
            bin_reaching(histogram, target, from) + 1,
        ) >= target,
        forall|n: int|
            from <= n < bin_reaching(histogram, target, from) ==> #[trigger] cumulative(
                histogram,
                n + 1,
            ) < target,
    decreases histogram.len() - from,
{
    if from < histogram.len() && cumulative(histogram, from + 1) < target {
        lemma_bin_reaching(histogram, target, from + 1);
    }
}

/// A percentile of a higher rank is no lower.
pub proof fn law_percentiles_are_ordered(histogram: Seq<u32>, total: u64, low: u64, high: u64)
    requires
        low <= high,
    ensures
        percentile(histogram, total, low) <= percentile(histogram, total, high),
{
    lemma_bin_reaching(histogram, low, 0);
    lemma_bin_reaching(histogram, high, 0);
    let a = bin_reaching(histogram, low, 0);
    let b = bin_reaching(histogram, high, 0);
    if b < a {
        assert(cumulative(histogram, b + 1) < low);
    }
    let last = BOUND_COUNT - 1;
    if a < b && b < BOUND_COUNT {
        law_bounds_ascend(a, b);
    }
    if a < last {
        law_bounds_ascend(a, last);
    }
}

/// A percentile bounds the events it speaks of: where it is reached below the open last bin, at
/// least `target` of the counted events lie in bins whose bounds do not exceed it, and no bin
/// below has that many.
pub proof fn law_percentile_covers_target(histogram: Seq<u32>, total: u64, target: u64)
    requires
        total > 0,
        histogram.len() == BIN_COUNT,
        target <= cumulative(histogram, BOUND_COUNT as int),
    ensures
        exists|bin: int|
            0 <= bin < BOUND_COUNT && percentile(histogram, total, target) == HIST_BOUNDS@[bin]
                && #[trigger] cumulative(histogram, bin + 1) >= target && (bin > 0 ==> cumulative(
                histogram,
                bin,
            ) < target),
{
    lemma_bin_reaching(histogram, target, 0);
    let bin = bin_reaching(histogram, target, 0);
    if bin >= BOUND_COUNT {
        assert(cumulative(histogram, (BOUND_COUNT - 1) + 1) < target);
    }
    if bin > 0 {
        assert(cumulative(histogram, (bin - 1) + 1) < target);
    }
    assert(cumulative(histogram, bin + 1) >= target);
}

/// Counts of this many bins sum to no more than this.
pub proof fn lemma_sum_limit(counts: Seq<u32>)
    ensures
        0 <= sum(counts) <= counts.len() * u32::MAX,
    decreases counts.len(),
{
    if counts.len() > 0 {
        lemma_sum_limit(counts.drop_last());
    }
}


/// The steps of the duration scale, in nanoseconds: one, two and five of each power of ten from a
/// microsecond on.
pub open spec fn scale_step(k: int) -> int {
    (if k % 3 == 0 {
        1int
    } else if k % 3 == 1 {
        2
    } else {
        5
    }) * pow(10, (3 + k / 3) as nat)
}

/// The duration lies between the steps of the scale that bound a bin. The first bin has no lower and
/// the last no upper bound.
pub open spec fn lies_in_bin(ns: u64, bin: int) -> bool {
    &&& bin > 0 ==> scale_step(bin - 1) <= ns
    &&& bin < 19 ==> ns < scale_step(bin)
}

/// The duration lies in the range of a severity: up to 10 us, 100 us, 1 ms, and beyond.
pub open spec fn lies_in_severity(ns: u64, sev: int) -> bool {
    &&& sev == 1 ==> 10_000 <= ns
    &&& sev == 2 ==> 100_000 <= ns
    &&& sev == 3 ==> 1_000_000 <= ns
    &&& sev == 0 ==> ns < 10_000
    &&& sev == 1 ==> ns < 100_000
    &&& sev == 2 ==> ns < 1_000_000
}

/// The bounds of the bins are the steps of the scale from one microsecond to one second.
pub proof fn law_bounds_are_the_steps_of_the_scale(k: int)
    requires
        0 <= k < 19,
    ensures
        HIST_BOUNDS@.len() == 19,
        BOUND_COUNT == 19,
        BIN_COUNT == 20,
        SEVERITY_COUNT == 4,
        HIST_BOUNDS@[k] == scale_step(k),
{
    assert(pow(10, 0) == 1) by {
        reveal(pow);
    }
    assert(pow(10, 1) == 10 * pow(10, 0)) by {
        reveal(pow);
    }
    assert(pow(10, 2) == 10 * pow(10, 1)) by {
        reveal(pow);
    }
    assert(pow(10, 3) == 10 * pow(10, 2)) by {
        reveal(pow);
    }
    assert(pow(10, 4) == 10 * pow(10, 3)) by {
        reveal(pow);
    }
    assert(pow(10, 5) == 10 * pow(10, 4)) by {
        reveal(pow);
    }
    assert(pow(10, 6) == 10 * pow(10, 5)) by {
        reveal(pow);
    }
    assert(pow(10, 7) == 10 * pow(10, 6)) by {
        reveal(pow);
    }
    assert(pow(10, 8) == 10 * pow(10, 7)) by {
        reveal(pow);
    }
    assert(pow(10, 9) == 10 * pow(10, 8)) by {
        reveal(pow);
    }
}

/// A duration is counted in the bin whose steps it lies between, and in no other.
pub proof fn law_duration_is_counted_in_its_bin(ns: u64, bin: usize, other: int)
    requires
        call_ensures(hist_bucket_index, (ns,), bin),
        0 <= other < 20,
    ensures
        bin < 20,
        lies_in_bin(ns, other) <==> bin == other,
        hist_bin(ns) == bin,
{
    lemma_bin_by_scale(ns, other);
}

/// A duration lies between the steps of its own bin only.
pub proof fn lemma_bin_by_scale(ns: u64, bin: int)
    requires
        0 <= bin < 20,
    ensures
        hist_bin(ns) == bin <==> lies_in_bin(ns, bin),
{
    if bin > 0 {
        law_bounds_are_the_steps_of_the_scale(bin - 1);
    }
    if bin < 19 {
        law_bounds_are_the_steps_of_the_scale(bin);
    }
    law_bin_holds_its_range(ns, bin);
}

/// A duration has the severity in whose range it lies, and no other.
pub proof fn law_duration_has_the_severity_of_its_range(ns: u64, index: usize, other: int)
    requires
        call_ensures(severity_index, (ns,), index),
        0 <= other < 4,
    ensures
        index < 4,
        lies_in_severity(ns, other) <==> index == other,
        severity(ns) == index,
{
}

/// The sum of counts is the counts added one by one.
pub proof fn law_sum_adds_every_count(counts: Seq<u32>)
    ensures
        sum(counts) == counts.fold_left(0int, |total: int, count: u32| total + count),
    decreases counts.len(),
{
    if counts.len() > 0 {
        law_sum_adds_every_count(counts.drop_last());
    }
}

/// The first bin that reaches a target is found.
proof fn lemma_bin_reaching_is_first(histogram: Seq<u32>, target: u64, from: int, bin: int)
    requires
        0 <= from <= bin <= histogram.len(),
        bin < histogram.len() ==> cumulative(histogram, bin + 1) >= target,
        forall|n: int| from < n <= bin ==> #[trigger] cumulative(histogram, n) < target,
    ensures
        bin_reaching(histogram, target, from) == bin,
    decreases bin - from,
{
    if from < bin {
        assert(cumulative(histogram, from + 1) < target);
        lemma_bin_reaching_is_first(histogram, target, from + 1, bin);
    }
}

/// A percentile is the upper bound of the first bin up to which at least `target` events were
/// counted. If that is the open last bin, or if no bin gets that far, it is one second; without
/// events it is zero.
pub proof fn law_percentile_is_where_its_rank_falls(
    histogram: &[u32],
    total: u64,
    target: u64,
    ns: u64,
    bin: int,
)
    requires
        call_ensures(approx_percentile, (histogram, total, target), ns),
        0 <= bin <= histogram@.len(),
        bin < histogram@.len() ==> histogram@.take(bin + 1).fold_left(
            0int,
            |total: int, count: u32| total + count,
        ) >= target,
        forall|n: int|
            0 < n <= bin ==> (#[trigger] histogram@.take(n)).fold_left(
                0int,
                |total: int, count: u32| total + count,
            ) < target,
    ensures
        total == 0 ==> ns == 0,
        total > 0 ==> ns == if bin < histogram@.len() && bin < 19 {
            scale_step(bin)
        } else {
            1_000_000_000
        },
{
    lemma_percentile_by_scale(histogram@, total, target, bin);
}

/// A percentile over the steps of the scale.
pub proof fn lemma_percentile_by_scale(histogram: Seq<u32>, total: u64, target: u64, bin: int)
    requires
        0 <= bin <= histogram.len(),
        bin < histogram.len() ==> histogram.take(bin + 1).fold_left(
            0int,
            |total: int, count: u32| total + count,
        ) >= target,
        forall|n: int|
            0 < n <= bin ==> (#[trigger] histogram.take(n)).fold_left(
                0int,
                |total: int, count: u32| total + count,
            ) < target,
    ensures
        percentile(histogram, total, target) == if total == 0 {
            0
        } else if bin < histogram.len() && bin < 19 {
            scale_step(bin)
        } else {
            1_000_000_000
        },
{
    assert forall|n: int| 0 < n <= bin implies #[trigger] cumulative(histogram, n) < target by {
        law_sum_adds_every_count(histogram.take(n));
    }
    if bin < histogram.len() {
        law_sum_adds_every_count(histogram.take(bin + 1));
    }
    lemma_bin_reaching_is_first(histogram, target, 0, bin);
    if bin < 19 {
        law_bounds_are_the_steps_of_the_scale(bin);
    }
}

/// A percentile can be asked for on any histogram of up to four billion bins.
pub proof fn law_percentile_can_always_be_asked_for(histogram: &[u32], total: u64, target: u64)
    requires
        histogram@.len() <= 0x1_0000_0000,
    ensures
        call_requires(approx_percentile, (histogram, total, target)),
{
    assert forall|n: int|
        0 <= n < histogram@.len() && #[trigger] cumulative(histogram@, n)
            < target implies cumulative(histogram@, n + 1) <= u64::MAX by {
        lemma_sum_limit(histogram@.take(n + 1));
    }
}

} // verus!
