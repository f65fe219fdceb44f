//! The report on the last 24 hours.

use vstd::prelude::*;
use vstd::std_specs::hash::*;
use vstd::std_specs::iter::IteratorSpec;
use crate::aggressor::{
    is_top, lemma_top_in_full, mergeable, merged, tally_fits, tally_of, top_aggressors,
    AggressorSummaryJson,
    AggressorTable,
};
use crate::bucket::{counts_total, lemma_table_total_remove, MinuteBucket, MinuteView, Sample};
use crate::histogram::{
    approx_percentile, cumulative, first_bin_of, lemma_percentile_by_scale, lemma_sum_bounds,
    lemma_sum_limit, percentile, running_total_fits, scale_step, sum, sum_of_severity, BIN_COUNT,
    SEVERITY_COUNT,
};
use crate::store::{History24hStore, StoreView};
use crate::worst::{WorstEvent, WorstView};

verus! {

broadcast use group_hash_axioms;

/// One minute in the report.
pub struct MinuteBucketJson {
    pub minute_ts: u64,
    pub count: u32,
    pub max_ns: u64,
    pub min_ns: u64,
    pub avg_ns: u64,
    pub sev: [u32; SEVERITY_COUNT],
}

/// One of the longest events in the report.
pub struct WorstEventJson24h {
    pub wall_time_ms: u64,
    pub duration_ns: u64,
    pub cpu_id: u32,
    pub victim_pid: u32,
    pub aggressor_pid: u32,
    pub victim_comm: String,
    pub aggressor_comm: String,
}

/// The figures over all minutes.
pub struct Summary24hJson {
    pub total_events: u64,
    pub max_ns: u64,
    pub max_wall_time_ms: u64,
    pub max_aggressor: String,
    pub max_victim: String,
    pub max_cpu: u32,
    pub approx_p50_ns: u64,
    pub approx_p99_ns: u64,
    pub sev: [u64; SEVERITY_COUNT],
    pub window_start_ms: u64,
    pub window_end_ms: u64,
}

/// One core in one minute.
pub struct CpuMinuteJson {
    pub minute_ts: u64,
    pub cpu_id: u32,
    pub count: u32,
    pub max_ns: u64,
}

/// The whole report.
pub struct History24hJson {
    pub minutes: Vec<MinuteBucketJson>,
    pub worst_events: Vec<WorstEventJson24h>,
    pub top_aggressors: Vec<AggressorSummaryJson>,
    pub summary: Summary24hJson,
    pub histogram: Vec<u32>,
    pub cpu_heatmap: Vec<CpuMinuteJson>,
}

impl MinuteBucketJson {
    /// This is what the report says of a minute. A minute without a shortest event shows zero.
    pub open spec fn shows(self, v: MinuteView) -> bool {
        &&& self.minute_ts == v.minute_ts
        &&& self.count == v.count
        &&& self.max_ns == v.max_ns
        &&& self.min_ns == if v.min_ns == u64::MAX {
            0
        } else {
            v.min_ns
        }
        &&& self.avg_ns == if v.count > 0 {
            v.sum_ns as int / v.count as int
        } else {
            0
        }
        &&& self.sev@ == v.sev
    }
}

impl View for WorstEventJson24h {
    type V = WorstView;

    open spec fn view(&self) -> WorstView {
        WorstView {
            wall_time_ms: self.wall_time_ms,
            duration_ns: self.duration_ns,
            cpu_id: self.cpu_id,
            victim_pid: self.victim_pid,
            aggressor_pid: self.aggressor_pid,
            victim_comm: self.victim_comm@,
            aggressor_comm: self.aggressor_comm@,
        }
    }
}

/// A figure of the buckets added up.
pub open spec fn total_of(buckets: Seq<MinuteView>, figure: spec_fn(MinuteView) -> int) -> int
    decreases buckets.len(),
{
    if buckets.len() == 0 {
        0
    } else {
        total_of(buckets.drop_last(), figure) + figure(buckets.last())
    }
}

/// The events in all buckets.
pub open spec fn events_total(buckets: Seq<MinuteView>) -> int {
    total_of(buckets, |v: MinuteView| v.count as int)
}

/// The events of one severity in all buckets.
pub open spec fn sev_total(buckets: Seq<MinuteView>, sev: int) -> int {
    total_of(buckets, |v: MinuteView| v.sev[sev] as int)
}

/// The events in one bin of all buckets.
pub open spec fn bin_total(buckets: Seq<MinuteView>, bin: int) -> int {
    total_of(buckets, |v: MinuteView| v.histogram[bin] as int)
}

/// How often a task occurs in all buckets.
pub open spec fn comm_count(buckets: Seq<MinuteView>, comm: Seq<char>) -> int {
    total_of(buckets, |v: MinuteView| tally_of(v.aggressors, comm).0 as int)
}

/// How long a task ran in all buckets.
pub open spec fn comm_ns(buckets: Seq<MinuteView>, comm: Seq<char>) -> int {
    total_of(buckets, |v: MinuteView| tally_of(v.aggressors, comm).1 as int)
}

/// Some bucket has a tally under this name.
pub open spec fn comm_seen(buckets: Seq<MinuteView>, comm: Seq<char>) -> bool {
    exists|i: int| 0 <= i < buckets.len() && (#[trigger] buckets[i]).aggressors.contains_key(comm)
}

/// The tallies of all buckets.
pub open spec fn all_tallies(buckets: Seq<MinuteView>) -> Map<Seq<char>, (u32, u64)> {
    Map::new(
        |comm: Seq<char>| comm_seen(buckets, comm),
        |comm: Seq<char>| (comm_count(buckets, comm) as u32, comm_ns(buckets, comm) as u64),
    )
}

/// The longest duration in all buckets; zero without events.
pub open spec fn longest(buckets: Seq<MinuteView>) -> u64
    decreases buckets.len(),
{
    if buckets.len() == 0 {
        0
    } else if buckets.last().max_ns > longest(buckets.drop_last()) {
        buckets.last().max_ns
    } else {
        longest(buckets.drop_last())
    }
}

/// The bins and the tallies of all buckets stay in range.
pub open spec fn totals_fit(buckets: Seq<MinuteView>) -> bool {
    &&& forall|bin: int| 0 <= bin < BIN_COUNT ==> #[trigger] bin_total(buckets, bin) <= u32::MAX
    &&& forall|comm: Seq<char>| #[trigger] comm_count(buckets, comm) <= u32::MAX
    &&& forall|comm: Seq<char>| #[trigger] comm_ns(buckets, comm) <= u64::MAX
}

/// These entries are the cores of one minute, each once. In what order they come is open.
pub open spec fn lists_cpus(entries: Seq<CpuMinuteJson>, v: MinuteView) -> bool {
    &&& entries.len() == v.cpus.dom().len()
    &&& forall|i: int|
        0 <= i < entries.len() ==> (#[trigger] entries[i]).minute_ts == v.minute_ts
            && v.cpus.contains_key(entries[i].cpu_id) && v.cpus[entries[i].cpu_id] == (
            entries[i].count,
            entries[i].max_ns,
        )
    &&& forall|i: int, j: int|
        0 <= i < j < entries.len() ==> (#[trigger] entries[i]).cpu_id != (
        #[trigger] entries[j]).cpu_id
    &&& forall|k: u32| #[trigger]
        v.cpus.contains_key(k) ==> exists|i: int|
            0 <= i < entries.len() && (#[trigger] entries[i]).cpu_id == k
}

/// The heatmap is the cores of each minute, one minute after the other.
pub open spec fn heatmap_shows(heatmap: Seq<CpuMinuteJson>, buckets: Seq<MinuteView>) -> bool
    decreases buckets.len(),
{
    if buckets.len() == 0 {
        heatmap.len() == 0
    } else {
        let front = heatmap.len() - buckets.last().cpus.dom().len();
        &&& front >= 0
        &&& lists_cpus(heatmap.skip(front), buckets.last())
        &&& heatmap_shows(heatmap.take(front), buckets.drop_last())
    }
}

/// The figures over all buckets that the report starts from.
pub struct HistoryTotals {
    pub histogram: Vec<u32>,
    pub total_events: u64,
    pub max_ns: u64,
    pub sev: [u64; SEVERITY_COUNT],
    pub aggressors: AggressorTable,
}

impl HistoryTotals {
    /// These are the figures of these buckets.
    pub open spec fn sums(self, buckets: Seq<MinuteView>) -> bool {
        &&& self.histogram@.len() == BIN_COUNT
        &&& forall|bin: int|
            0 <= bin < BIN_COUNT ==> #[trigger] self.histogram@[bin] == bin_total(buckets, bin)
        &&& self.total_events == events_total(buckets)
        &&& self.max_ns == longest(buckets)
        &&& forall|k: int|
            0 <= k < SEVERITY_COUNT ==> #[trigger] self.sev@[k] == sev_total(buckets, k)
        &&& self.aggressors.wf()
        &&& self.aggressors@ == all_tallies(buckets)
    }
}

impl History24hJson {
    /// This is the report on a history at `now_ms`, with these ranks for the two percentiles.
    pub open spec fn reports(
        self,
        store: StoreView,
        now_ms: u64,
        p50_rank: u64,
        p99_rank: u64,
    ) -> bool {
        let buckets = store.buckets;
        let worst = store.worst;
        let summary = self.summary;
        &&& self.minutes@.len() == buckets.len()
        &&& forall|i: int|
            0 <= i < buckets.len() ==> (#[trigger] self.minutes@[i]).shows(buckets[i])
        &&& self.worst_events@.len() == worst.len()
        &&& forall|i: int| 0 <= i < worst.len() ==> (#[trigger] self.worst_events@[i])@ == worst[i]
        &&& is_top(self.top_aggressors@, all_tallies(buckets))
        &&& self.histogram@.len() == BIN_COUNT
        &&& forall|bin: int|
            0 <= bin < BIN_COUNT ==> #[trigger] self.histogram@[bin] == bin_total(buckets, bin)
        &&& heatmap_shows(self.cpu_heatmap@, buckets)
        &&& summary.total_events == events_total(buckets)
        &&& summary.max_ns == longest(buckets)
        &&& summary.max_wall_time_ms == if worst.len() > 0 {
            worst[0].wall_time_ms
        } else {
            0
        }
        &&& summary.max_aggressor@ == if worst.len() > 0 {
            worst[0].aggressor_comm
        } else {
            Seq::empty()
        }
        &&& summary.max_victim@ == if worst.len() > 0 {
            worst[0].victim_comm
        } else {
            Seq::empty()
        }
        &&& summary.max_cpu == if worst.len() > 0 {
            worst[0].cpu_id
        } else {
            0
        }
        &&& summary.approx_p50_ns == percentile(self.histogram@, summary.total_events, p50_rank)
        &&& summary.approx_p99_ns == percentile(self.histogram@, summary.total_events, p99_rank)
        &&& forall|k: int|
            0 <= k < SEVERITY_COUNT ==> #[trigger] summary.sev@[k] == sev_total(buckets, k)
        &&& summary.window_start_ms == if buckets.len() > 0 {
            buckets[0].minute_ts * 1000
        } else {
            now_ms as int
        }
        &&& summary.window_end_ms == now_ms
    }
}

/// One more bucket adds its figure.
pub proof fn lemma_total_push(
    buckets: Seq<MinuteView>,
    v: MinuteView,
    figure: spec_fn(MinuteView) -> int,
)
    ensures
        total_of(buckets.push(v), figure) == total_of(buckets, figure) + figure(v),
{
    assert(buckets.push(v).drop_last() =~= buckets);
}

/// Sums of counts are not negative, and more buckets count no fewer.
proof fn lemma_total_monotone(
    buckets: Seq<MinuteView>,
    n: int,
    figure: spec_fn(MinuteView) -> int,
)
    requires
        0 <= n <= buckets.len(),
        forall|v: MinuteView| #[trigger] figure(v) >= 0,
    ensures
        0 <= total_of(buckets.take(n), figure) <= total_of(buckets, figure),
    decreases buckets.len(),
{
    if n < buckets.len() {
        lemma_total_monotone(buckets.drop_last(), n, figure);
        assert(buckets.drop_last().take(n) =~= buckets.take(n));
    } else {
        assert(buckets.take(n) =~= buckets);
        if n > 0 {
            lemma_total_monotone(buckets.drop_last(), n - 1, figure);
            assert(buckets.drop_last().take(n - 1) =~= buckets.drop_last());
        }
    }
}

/// The totals of a prefix of the buckets fit if all do.
proof fn lemma_fit_prefix(buckets: Seq<MinuteView>, n: int)
    requires
        0 <= n <= buckets.len(),
        totals_fit(buckets),
    ensures
        totals_fit(buckets.take(n)),
{
    assert forall|bin: int| 0 <= bin < BIN_COUNT implies #[trigger] bin_total(buckets.take(n), bin)
        <= u32::MAX by {
        lemma_total_monotone(buckets, n, |v: MinuteView| v.histogram[bin] as int);
        assert(bin_total(buckets, bin) <= u32::MAX);
    }
    assert forall|comm: Seq<char>| #[trigger] comm_count(buckets.take(n), comm) <= u32::MAX by {
        lemma_total_monotone(buckets, n, |v: MinuteView| tally_of(v.aggressors, comm).0 as int);
        assert(comm_count(buckets, comm) <= u32::MAX);
    }
    assert forall|comm: Seq<char>| #[trigger] comm_ns(buckets.take(n), comm) <= u64::MAX by {
        lemma_total_monotone(buckets, n, |v: MinuteView| tally_of(v.aggressors, comm).1 as int);
        assert(comm_ns(buckets, comm) <= u64::MAX);
    }
}

/// A task that no bucket has seen has no total.
proof fn lemma_unseen(buckets: Seq<MinuteView>, comm: Seq<char>)
    requires
        !comm_seen(buckets, comm),
    ensures
        comm_count(buckets, comm) == 0,
        comm_ns(buckets, comm) == 0,
    decreases buckets.len(),
{
    if buckets.len() > 0 {
        let front = buckets.drop_last();
        assert(!buckets[buckets.len() - 1].aggressors.contains_key(comm));
        assert forall|i: int| 0 <= i < front.len() implies !(
        #[trigger] front[i]).aggressors.contains_key(comm) by {
            assert(buckets[i] == front[i]);
        }
        lemma_unseen(front, comm);
    }
}

/// One more bucket merges its tallies into those of the others, if they fit.
proof fn lemma_tallies_push(buckets: Seq<MinuteView>, v: MinuteView)
    requires
        totals_fit(buckets),
    ensures
        mergeable(all_tallies(buckets), v.aggressors) <==> forall|comm: Seq<char>|
            #![trigger comm_count(buckets.push(v), comm)]
            #![trigger comm_ns(buckets.push(v), comm)]
            comm_count(buckets.push(v), comm) <= u32::MAX && comm_ns(buckets.push(v), comm)
                <= u64::MAX,
        mergeable(all_tallies(buckets), v.aggressors) ==> merged(
            all_tallies(buckets),
            v.aggressors,
        ) == all_tallies(buckets.push(v)),
{
    let a = all_tallies(buckets);
    let b = v.aggressors;
    let more = buckets.push(v);
    assert forall|comm: Seq<char>|
        #![trigger comm_count(more, comm)]
        #![trigger comm_ns(more, comm)]
        comm_count(more, comm) == tally_of(a, comm).0 + tally_of(b, comm).0 && comm_ns(more, comm)
            == tally_of(a, comm).1 + tally_of(b, comm).1 by {
        lemma_total_push(buckets, v, |v: MinuteView| tally_of(v.aggressors, comm).0 as int);
        lemma_total_push(buckets, v, |v: MinuteView| tally_of(v.aggressors, comm).1 as int);
        lemma_total_monotone(buckets, 0, |v: MinuteView| tally_of(v.aggressors, comm).0 as int);
        lemma_total_monotone(buckets, 0, |v: MinuteView| tally_of(v.aggressors, comm).1 as int);
        assert(comm_count(buckets, comm) <= u32::MAX && comm_ns(buckets, comm) <= u64::MAX);
        if !comm_seen(buckets, comm) {
            lemma_unseen(buckets, comm);
        }
    }
    if mergeable(a, b) {
        assert forall|comm: Seq<char>|
            #![trigger comm_count(more, comm)]
            #![trigger comm_ns(more, comm)]
            comm_count(more, comm) <= u32::MAX && comm_ns(more, comm) <= u64::MAX by {
            if b.contains_key(comm) {
                assert(tally_fits(a, comm, b[comm].0, b[comm].1));
            }
        }
        assert forall|comm: Seq<char>| #[trigger] comm_seen(more, comm) <==> comm_seen(
            buckets,
            comm,
        ) || b.contains_key(comm) by {
            if comm_seen(buckets, comm) {
                let i = choose|i: int|
                    0 <= i < buckets.len() && (#[trigger] buckets[i]).aggressors.contains_key(comm);
                assert(more[i] == buckets[i]);
            }
            if b.contains_key(comm) {
                assert(more[buckets.len() as int].aggressors.contains_key(comm));
            }
            if comm_seen(more, comm) {
                let i = choose|i: int|
                    0 <= i < more.len() && (#[trigger] more[i]).aggressors.contains_key(comm);
                if i < buckets.len() {
                    assert(more[i] == buckets[i]);
                }
            }
        }
        assert forall|comm: Seq<char>| comm_seen(more, comm) implies #[trigger] merged(a, b)[comm]
            == all_tallies(more)[comm] by {
            assert(comm_count(more, comm) == tally_of(a, comm).0 + tally_of(b, comm).0);
        }
        assert(merged(a, b) =~= all_tallies(more));
    }
    if forall|comm: Seq<char>|
        #![trigger comm_count(more, comm)]
        #![trigger comm_ns(more, comm)]
        comm_count(more, comm) <= u32::MAX && comm_ns(more, comm) <= u64::MAX {
        assert forall|comm: Seq<char>| b.contains_key(comm) implies #[trigger] tally_fits(
            a,
            comm,
            b[comm].0,
            b[comm].1,
        ) by {
            assert(comm_count(more, comm) <= u32::MAX);
        }
    }
}

/// Adding bin by bin adds the sums.
proof fn lemma_sum_pointwise(a: Seq<u32>, b: Seq<u32>, c: Seq<u32>)
    requires
        a.len() == b.len() == c.len(),
        forall|i: int| 0 <= i < a.len() ==> #[trigger] c[i] == a[i] + b[i],
    ensures
        sum(c) == sum(a) + sum(b),
    decreases a.len(),
{
    if a.len() > 0 {
        lemma_sum_pointwise(a.drop_last(), b.drop_last(), c.drop_last());
        assert(c[c.len() - 1] == a[a.len() - 1] + b[b.len() - 1]);
    }
}

/// Adds the bins of a bucket, unless one goes out of range.
fn add_bins(histogram: &mut Vec<u32>, bins: &[u32; BIN_COUNT]) -> (fits: bool)
    requires
        old(histogram)@.len() == BIN_COUNT,
    ensures
        final(histogram)@.len() == BIN_COUNT,
        fits <==> forall|k: int|
            0 <= k < BIN_COUNT ==> #[trigger] old(histogram)@[k] + bins@[k] <= u32::MAX,
        fits ==> forall|k: int|
            0 <= k < BIN_COUNT ==> #[trigger] final(histogram)@[k] == old(histogram)@[k] + bins@[k],
{
    let ghost before = histogram@;
    let mut k: usize = 0;
    while k < BIN_COUNT
        invariant
            k <= BIN_COUNT,
            before == old(histogram)@,
            before.len() == BIN_COUNT,
            histogram@.len() == BIN_COUNT,
            forall|j: int|
                0 <= j < k ==> #[trigger] histogram@[j] == before[j] + bins@[j],
            forall|j: int| k <= j < BIN_COUNT ==> #[trigger] histogram@[j] == before[j],
            forall|j: int| 0 <= j < k ==> #[trigger] before[j] + bins@[j] <= u32::MAX,
        decreases BIN_COUNT - k,
    {
        if bins[k] > u32::MAX - histogram[k] {
            assert(before[k as int] + bins@[k as int] > u32::MAX);
            return false;
        }
        histogram[k] = histogram[k] + bins[k];
        k += 1;
    }
    true
}

impl HistoryTotals {
    /// The bins and the severities agree with the number of events.
    spec fn agrees(self) -> bool {
        &&& self.histogram@.len() == BIN_COUNT
        &&& sum(self.histogram@) == self.total_events
        &&& forall|k: int|
            0 <= k < SEVERITY_COUNT ==> #[trigger] self.sev@[k] <= self.total_events
    }

    /// The figures of no buckets.
    fn new() -> (totals: HistoryTotals)
        ensures
            totals.sums(Seq::empty()),
            totals.agrees(),
            totals_fit(Seq::empty()),
    {
        let totals = HistoryTotals {
            histogram: vec![0u32; BIN_COUNT],
            total_events: 0,
            max_ns: 0,
            sev: [0u64; SEVERITY_COUNT],
            aggressors: AggressorTable::new(),
        };
        proof {
            crate::histogram::lemma_sum_zero(totals.histogram@);
            assert(totals.aggressors@ =~= all_tallies(Seq::empty()));
        }
        totals
    }

    /// Adds the figures of one more bucket, unless one goes out of range.
    fn add_bucket(&mut self, bucket: &MinuteBucket, Ghost(before): Ghost<Seq<MinuteView>>) -> (fits:
        bool)
        requires
            old(self).sums(before),
            old(self).agrees(),
            totals_fit(before),
            bucket.wf(),
        ensures
            fits == totals_fit(before.push(bucket@)),
            fits ==> final(self).sums(before.push(bucket@)),
            fits ==> final(self).agrees(),
    {
        let ghost v = bucket@;
        let ghost more = before.push(v);
        let ghost bins = self.histogram@;
        let ghost sevs = self.sev@;
        proof {
            assert forall|k: int| 0 <= k < BIN_COUNT implies #[trigger] bin_total(more, k)
                == bins[k] + v.histogram[k] by {
                lemma_total_push(before, v, |v: MinuteView| v.histogram[k] as int);
                assert(bins[k] == bin_total(before, k));
            }
            assert forall|k: int| 0 <= k < SEVERITY_COUNT implies #[trigger] sev_total(more, k)
                == sevs[k] + v.sev[k] by {
                lemma_total_push(before, v, |v: MinuteView| v.sev[k] as int);
                assert(sevs[k] == sev_total(before, k));
            }
            lemma_total_push(before, v, |v: MinuteView| v.count as int);
            lemma_tallies_push(before, v);
            assert(more.drop_last() =~= before);
        }
        if !add_bins(&mut self.histogram, bucket.histogram()) {
            proof {
                let k = choose|k: int|
                    0 <= k < BIN_COUNT && #[trigger] bins[k] + v.histogram[k] > u32::MAX;
                assert(bin_total(more, k) > u32::MAX);
            }
            return false;
        }
        proof {
            lemma_sum_pointwise(bins, v.histogram, self.histogram@);
            lemma_sum_limit(self.histogram@);
        }
        self.total_events += bucket.count() as u64;
        if bucket.max_ns() > self.max_ns {
            self.max_ns = bucket.max_ns();
        }
        let mut k: usize = 0;
        while k < SEVERITY_COUNT
            invariant
                k <= SEVERITY_COUNT,
                bucket.wf(),
                v == bucket@,
                self.total_events == events_total(more),
                events_total(more) == events_total(before) + v.count,
                self.max_ns == longest(more),
                self.histogram@.len() == BIN_COUNT,
                sum(self.histogram@) == self.total_events,
                forall|bin: int|
                    0 <= bin < BIN_COUNT ==> #[trigger] self.histogram@[bin] == bin_total(more, bin),
                self.aggressors == old(self).aggressors,
                forall|j: int| 0 <= j < SEVERITY_COUNT ==> #[trigger] sevs[j] <= events_total(
                    before,
                ),
                forall|j: int| 0 <= j < k ==> #[trigger] self.sev@[j] == sevs[j] + v.sev[j],
                forall|j: int| 0 <= j < k ==> #[trigger] self.sev@[j] <= self.total_events,
                forall|j: int| k <= j < SEVERITY_COUNT ==> #[trigger] self.sev@[j] == sevs[j],
            decreases SEVERITY_COUNT - k,
        {
            proof {
                lemma_sum_bounds(v.sev, k as int);
                assert(sevs[k as int] <= events_total(before));
            }
            let sev = bucket.sev();
            self.sev[k] = self.sev[k] + sev[k] as u64;
            k += 1;
        }
        if !self.aggressors.merge(bucket.aggressors()) {
            return false;
        }
        proof {
            assert forall|bin: int| 0 <= bin < BIN_COUNT implies #[trigger] bin_total(more, bin)
                <= u32::MAX by {
                assert(self.histogram@[bin] == bin_total(more, bin));
            }
            assert forall|j: int| 0 <= j < SEVERITY_COUNT implies #[trigger] self.sev@[j]
                == sev_total(more, j) by {
                assert(self.sev@[j] == sevs[j] + v.sev[j]);
            }
        }
        true
    }
}

impl History24hStore {
    /// The figures over all buckets, unless one goes out of range.
    pub fn totals(&self) -> (totals: Option<HistoryTotals>)
        requires
            self.wf(),
        ensures
            totals is Some <==> totals_fit(self@.buckets),
            totals matches Some(t) ==> t.sums(self@.buckets),
    {
        let ghost all = self@.buckets;
        let buckets = self.buckets();
        let mut totals = HistoryTotals::new();
        let mut i: usize = 0;
        assert(all.take(0) =~= Seq::<MinuteView>::empty());
        while i < buckets.len()
            invariant
                i <= buckets@.len(),
                buckets@.len() == all.len(),
                forall|j: int|
                    0 <= j < buckets@.len() ==> (#[trigger] buckets@[j]).wf() && buckets@[j]@
                        == all[j],
                totals.sums(all.take(i as int)),
                totals.agrees(),
                totals_fit(all.take(i as int)),
                all == self@.buckets,
            decreases all.len() - i,
        {
            let ghost before = all.take(i as int);
            assert(buckets@[i as int].wf());
            assert(before.push(all[i as int]) =~= all.take(i + 1));
            if !totals.add_bucket(&buckets[i], Ghost(before)) {
                proof {
                    if totals_fit(all) {
                        lemma_fit_prefix(all, i + 1);
                    }
                }
                return None;
            }
            i += 1;
        }
        assert(all.take(all.len() as int) =~= all);
        Some(totals)
    }
}

/// Appends the cores of a minute to the heatmap.
fn push_cpus(heatmap: &mut Vec<CpuMinuteJson>, bucket: &MinuteBucket)
    requires
        bucket.wf(),
    ensures
        final(heatmap)@.len() == old(heatmap)@.len() + bucket@.cpus.dom().len(),
        final(heatmap)@.take(old(heatmap)@.len() as int) == old(heatmap)@,
        lists_cpus(final(heatmap)@.skip(old(heatmap)@.len() as int), bucket@),
{
    let ghost before = heatmap@;
    let ghost n = before.len() as int;
    let cpus = bucket.cpus();
    let minute_ts: u64 = bucket.minute_ts();
    let walk = cpus.iter();
    let ghost items = walk.remaining();
    for pair in it: walk
        invariant
            n == before.len(),
            it.seq() == items,
            heatmap@.len() == n + it.index(),
            heatmap@.take(n) == before,
            forall|i: int|
                0 <= i < it.index() ==> (#[trigger] heatmap@[n + i]) == (CpuMinuteJson {
                    minute_ts,
                    cpu_id: *items[i].0,
                    count: (*items[i].1).0,
                    max_ns: (*items[i].1).1,
                }),
    {
        heatmap.push(
            CpuMinuteJson { minute_ts, cpu_id: *pair.0, count: pair.1.0, max_ns: pair.1.1 },
        );
        assert(heatmap@.take(n) =~= before);
    }
    proof {
        let entries = heatmap@.skip(n);
        let listing = cpus@;
        assert forall|i: int| 0 <= i < entries.len() implies (#[trigger] entries[i]).minute_ts
            == minute_ts && listing.contains_key(entries[i].cpu_id)
            && listing[entries[i].cpu_id] == (entries[i].count, entries[i].max_ns) by {
            assert(entries[i] == heatmap@[n + i]);
            assert(listing.contains_key(*items[i].0) && listing[*items[i].0] == *items[i].1);
        }
        assert forall|i: int, j: int| 0 <= i < j < entries.len() implies (
        #[trigger] entries[i]).cpu_id != (#[trigger] entries[j]).cpu_id by {
            assert(entries[i] == heatmap@[n + i] && entries[j] == heatmap@[n + j]);
            assert(listing[*items[i].0] == *items[i].1 && listing[*items[j].0] == *items[j].1);
            assert(items[i] != items[j]);
        }
        assert forall|k: u32| #[trigger] listing.contains_key(k) implies exists|i: int|
            0 <= i < entries.len() && (#[trigger] entries[i]).cpu_id == k by {
            assert(items.contains((&k, &listing[k])));
            let i = choose|i: int| 0 <= i < items.len() && items[i] == (&k, &listing[k]);
            assert(entries[i] == heatmap@[n + i]);
        }
    }
}

/// The running totals over this many bins stay in range.
proof fn lemma_running_total_fits(histogram: Seq<u32>, target: u64)
    requires
        histogram.len() == BIN_COUNT,
    ensures
        running_total_fits(histogram, target),
{
    assert forall|n: int|
        0 <= n < histogram.len() && #[trigger] cumulative(histogram, n) < target implies cumulative(
        histogram,
        n + 1,
    ) <= u64::MAX by {
        lemma_sum_limit(histogram.take(n + 1));
    }
}

/// What the report says of a minute.
fn minute_json(bucket: &MinuteBucket) -> (json: MinuteBucketJson)
    requires
        bucket.wf(),
    ensures
        json.shows(bucket@),
{
    let count: u32 = bucket.count();
    let min_ns: u64 = bucket.min_ns();
    MinuteBucketJson {
        minute_ts: bucket.minute_ts(),
        count,
        max_ns: bucket.max_ns(),
        min_ns: if min_ns == u64::MAX {
            0
        } else {
            min_ns
        },
        avg_ns: if count > 0 {
            bucket.sum_ns() / count as u64
        } else {
            0
        },
        sev: *bucket.sev(),
    }
}

/// What the report says of one of the longest events.
fn worst_json(w: &WorstEvent) -> (json: WorstEventJson24h)
    ensures
        json@ == w@,
{
    WorstEventJson24h {
        wall_time_ms: w.wall_time_ms,
        duration_ns: w.duration_ns,
        cpu_id: w.cpu_id,
        victim_pid: w.victim_pid,
        aggressor_pid: w.aggressor_pid,
        victim_comm: w.victim_comm.clone(),
        aggressor_comm: w.aggressor_comm.clone(),
    }
}

impl History24hStore {
    /// The minutes of the report.
    fn minutes(&self) -> (minutes: Vec<MinuteBucketJson>)
        requires
            self.wf(),
        ensures
            minutes@.len() == self@.buckets.len(),
            forall|i: int|
                0 <= i < minutes@.len() ==> (#[trigger] minutes@[i]).shows(self@.buckets[i]),
    {
        let buckets = self.buckets();
        let mut minutes: Vec<MinuteBucketJson> = Vec::new();
        let mut i: usize = 0;
        while i < buckets.len()
            invariant
                i <= buckets@.len() == self@.buckets.len(),
                minutes@.len() == i,
                forall|j: int|
                    0 <= j < buckets@.len() ==> (#[trigger] buckets@[j]).wf() && buckets@[j]@
                        == self@.buckets[j],
                forall|j: int| 0 <= j < i ==> (#[trigger] minutes@[j]).shows(self@.buckets[j]),
            decreases buckets@.len() - i,
        {
            assert(buckets@[i as int].wf());
            minutes.push(minute_json(&buckets[i]));
            i += 1;
        }
        minutes
    }

    /// The longest events of the report.
    fn worst_events(&self) -> (events: Vec<WorstEventJson24h>)
        ensures
            events@.len() == self@.worst.len(),
            forall|i: int| 0 <= i < events@.len() ==> (#[trigger] events@[i])@ == self@.worst[i],
    {
        let worst = self.worst();
        let mut events: Vec<WorstEventJson24h> = Vec::new();
        let mut i: usize = 0;
        while i < worst.len()
            invariant
                i <= worst@.len() == self@.worst.len(),
                events@.len() == i,
                forall|j: int|
                    0 <= j < worst@.len() ==> (#[trigger] worst@[j])@ == self@.worst[j],
                forall|j: int| 0 <= j < i ==> (#[trigger] events@[j])@ == self@.worst[j],
            decreases worst@.len() - i,
        {
            events.push(worst_json(&worst[i]));
            i += 1;
        }
        events
    }

    /// The heatmap of the report.
    fn cpu_heatmap(&self) -> (heatmap: Vec<CpuMinuteJson>)
        requires
            self.wf(),
        ensures
            heatmap_shows(heatmap@, self@.buckets),
    {
        let ghost all = self@.buckets;
        let buckets = self.buckets();
        let mut heatmap: Vec<CpuMinuteJson> = Vec::new();
        let mut i: usize = 0;
        while i < buckets.len()
            invariant
                i <= buckets@.len() == all.len(),
                forall|j: int|
                    0 <= j < buckets@.len() ==> (#[trigger] buckets@[j]).wf() && buckets@[j]@
                        == all[j],
                heatmap_shows(heatmap@, all.take(i as int)),
            decreases all.len() - i,
        {
            assert(buckets@[i as int].wf());
            push_cpus(&mut heatmap, &buckets[i]);
            assert(all.take(i + 1).drop_last() =~= all.take(i as int));
            i += 1;
        }
        assert(all.take(all.len() as int) =~= all);
        heatmap
    }

    /// The report at `now_ms`, made of the figures over all buckets. The ranks say which event, in
    /// the order of their durations, each percentile asks for.
    pub fn history24h(&self, totals: HistoryTotals, now_ms: u64, p50_rank: u64, p99_rank: u64) -> (
    json: History24hJson)
        requires
            self.wf(),
            totals.sums(self@.buckets),
        ensures
            json.reports(self@, now_ms, p50_rank, p99_rank),
    {
        let buckets = self.buckets();
        let worst = self.worst();
        proof {
            lemma_running_total_fits(totals.histogram@, p50_rank);
            lemma_running_total_fits(totals.histogram@, p99_rank);
        }
        let approx_p50_ns: u64 = approx_percentile(
            totals.histogram.as_slice(),
            totals.total_events,
            p50_rank,
        );
        let approx_p99_ns: u64 = approx_percentile(
            totals.histogram.as_slice(),
            totals.total_events,
            p99_rank,
        );
        let (max_wall_time_ms, max_aggressor, max_victim, max_cpu): (u64, String, String, u32) =
            if worst.len() > 0 {
            (
                worst[0].wall_time_ms,
                worst[0].aggressor_comm.clone(),
                worst[0].victim_comm.clone(),
                worst[0].cpu_id,
            )
        } else {
            (0, String::new(), String::new(), 0)
        };
        let window_start_ms: u64 = if buckets.len() > 0 {
            assert(buckets@[0]@ == self@.buckets[0]);
            buckets[0].minute_ts() * 1000
        } else {
            now_ms
        };
        let summary = Summary24hJson {
            total_events: totals.total_events,
            max_ns: totals.max_ns,
            max_wall_time_ms,
            max_aggressor,
            max_victim,
            max_cpu,
            approx_p50_ns,
            approx_p99_ns,
            sev: totals.sev,
            window_start_ms,
            window_end_ms: now_ms,
        };
        History24hJson {
            minutes: self.minutes(),
            worst_events: self.worst_events(),
            top_aggressors: top_aggressors(totals.aggressors),
            summary,
            histogram: totals.histogram,
            cpu_heatmap: self.cpu_heatmap(),
        }
    }
}

/// The sum of four counts, written out.
proof fn lemma_sum_of_severities(sev: Seq<u32>)
    requires
        sev.len() == SEVERITY_COUNT,
    ensures
        sum(sev) == sev[0] + sev[1] + sev[2] + sev[3],
{
    reveal_with_fuel(sum, 5);
}

/// The bins of consistent buckets, added up, count every event.
proof fn lemma_bins_count_events(buckets: Seq<MinuteView>, bins: Seq<u32>)
    requires
        forall|i: int| 0 <= i < buckets.len() ==> (#[trigger] buckets[i]).consistent(),
        bins.len() == BIN_COUNT,
        forall|k: int| 0 <= k < BIN_COUNT ==> #[trigger] bins[k] == bin_total(buckets, k),
    ensures
        sum(bins) == events_total(buckets),
    decreases buckets.len(),
{
    if buckets.len() == 0 {
        assert forall|k: int| 0 <= k < bins.len() implies bins[k] == 0 by {
            assert(bins[k] == bin_total(buckets, k));
        }
        crate::histogram::lemma_sum_zero(bins);
    } else {
        let front = buckets.drop_last();
        let v = buckets.last();
        assert(buckets[buckets.len() - 1].consistent());
        let before = Seq::new(BIN_COUNT as nat, |k: int| bin_total(front, k) as u32);
        assert forall|k: int| 0 <= k < BIN_COUNT implies #[trigger] before[k] == bin_total(front, k)
            && bins[k] == before[k] + v.histogram[k] by {
            lemma_total_monotone(front, 0, |v: MinuteView| v.histogram[k] as int);
            assert(bins[k] == bin_total(buckets, k));
        }
        assert forall|i: int| 0 <= i < front.len() implies (#[trigger] front[i]).consistent() by {
            assert(buckets[i] == front[i]);
        }
        lemma_bins_count_events(front, before);
        assert forall|k: int| 0 <= k < bins.len() implies #[trigger] bins[k] == before[k]
            + v.histogram[k] by {
            assert(before[k] == bin_total(front, k));
        }
        lemma_sum_pointwise(before, v.histogram, bins);
    }
}

/// The severities of consistent buckets, added up, count every event.
proof fn lemma_severities_count_events(buckets: Seq<MinuteView>)
    requires
        forall|i: int| 0 <= i < buckets.len() ==> (#[trigger] buckets[i]).consistent(),
    ensures
        sev_total(buckets, 0) + sev_total(buckets, 1) + sev_total(buckets, 2) + sev_total(
            buckets,
            3,
        ) == events_total(buckets),
    decreases buckets.len(),
{
    if buckets.len() > 0 {
        let front = buckets.drop_last();
        assert(buckets[buckets.len() - 1].consistent());
        lemma_sum_of_severities(buckets.last().sev);
        assert forall|i: int| 0 <= i < front.len() implies (#[trigger] front[i]).consistent() by {
            assert(buckets[i] == front[i]);
        }
        lemma_severities_count_events(front);
    }
}

/// The bins of a severity, added up over consistent buckets, count the events of that severity.
proof fn lemma_bins_count_severity(buckets: Seq<MinuteView>, bins: Seq<u32>, sev: int)
    requires
        forall|i: int| 0 <= i < buckets.len() ==> (#[trigger] buckets[i]).consistent(),
        bins.len() == BIN_COUNT,
        forall|k: int| 0 <= k < BIN_COUNT ==> #[trigger] bins[k] == bin_total(buckets, k),
        0 <= sev < SEVERITY_COUNT,
    ensures
        sum_of_severity(bins, sev) == sev_total(buckets, sev),
    decreases buckets.len(),
{
    let lo = first_bin_of(sev);
    let hi = first_bin_of(sev + 1);
    if buckets.len() == 0 {
        let part = bins.subrange(lo, hi);
        assert forall|k: int| 0 <= k < part.len() implies part[k] == 0 by {
            assert(bins[lo + k] == bin_total(buckets, lo + k));
        }
        crate::histogram::lemma_sum_zero(part);
    } else {
        let front = buckets.drop_last();
        let v = buckets.last();
        assert(buckets[buckets.len() - 1].consistent());
        let before = Seq::new(BIN_COUNT as nat, |k: int| bin_total(front, k) as u32);
        assert forall|k: int| 0 <= k < BIN_COUNT implies #[trigger] before[k] == bin_total(front, k)
            && bins[k] == before[k] + v.histogram[k] by {
            lemma_total_monotone(front, 0, |v: MinuteView| v.histogram[k] as int);
            assert(bins[k] == bin_total(buckets, k));
        }
        assert forall|i: int| 0 <= i < front.len() implies (#[trigger] front[i]).consistent() by {
            assert(buckets[i] == front[i]);
        }
        lemma_bins_count_severity(front, before, sev);
        let a = before.subrange(lo, hi);
        let b = v.histogram.subrange(lo, hi);
        let c = bins.subrange(lo, hi);
        assert forall|k: int| 0 <= k < c.len() implies #[trigger] c[k] == a[k] + b[k] by {
            assert(before[lo + k] == bin_total(front, lo + k));
        }
        lemma_sum_pointwise(a, b, c);
        assert(v.sev[sev] == sum_of_severity(v.histogram, sev));
    }
}

/// The counts of the minutes in a report.
pub open spec fn minute_counts(minutes: Seq<MinuteBucketJson>) -> Seq<u32> {
    minutes.map_values(|m: MinuteBucketJson| m.count)
}

/// The counts in a heatmap.
pub open spec fn cpu_counts(heatmap: Seq<CpuMinuteJson>) -> Seq<u32> {
    heatmap.map_values(|c: CpuMinuteJson| c.count)
}

/// The sum of two sequences of counts, one behind the other.
proof fn lemma_sum_concat(a: Seq<u32>, b: Seq<u32>)
    ensures
        sum(a + b) == sum(a) + sum(b),
    decreases b.len(),
{
    if b.len() == 0 {
        assert(a + b =~= a);
    } else {
        lemma_sum_concat(a, b.drop_last());
        assert((a + b).drop_last() =~= a + b.drop_last());
    }
}

/// The minutes of a report count every event.
proof fn lemma_minutes_count_events(minutes: Seq<MinuteBucketJson>, buckets: Seq<MinuteView>)
    requires
        minutes.len() == buckets.len(),
        forall|i: int| 0 <= i < buckets.len() ==> (#[trigger] minutes[i]).shows(buckets[i]),
    ensures
        sum(minute_counts(minutes)) == events_total(buckets),
    decreases buckets.len(),
{
    if buckets.len() > 0 {
        let front = minutes.drop_last();
        assert forall|i: int| 0 <= i < front.len() implies (#[trigger] front[i]).shows(
            buckets.drop_last()[i],
        ) by {
            assert(front[i] == minutes[i]);
        }
        lemma_minutes_count_events(front, buckets.drop_last());
        assert(minute_counts(minutes).drop_last() =~= minute_counts(front));
        assert(minutes[minutes.len() - 1].shows(buckets.last()));
    }
}

/// Entries for each core once count what all cores count.
proof fn lemma_entries_count_cpus(entries: Seq<CpuMinuteJson>, cpus: Map<u32, (u32, u64)>)
    requires
        cpus.dom().finite(),
        entries.len() == cpus.dom().len(),
        forall|i: int|
            0 <= i < entries.len() ==> cpus.contains_key((#[trigger] entries[i]).cpu_id)
                && cpus[entries[i].cpu_id].0 == entries[i].count,
        forall|i: int, j: int|
            0 <= i < j < entries.len() ==> (#[trigger] entries[i]).cpu_id != (
            #[trigger] entries[j]).cpu_id,
    ensures
        sum(cpu_counts(entries)) == counts_total(cpus),
    decreases entries.len(),
{
    if entries.len() > 0 {
        let front = entries.drop_last();
        let last = entries[entries.len() - 1];
        let rest = cpus.remove(last.cpu_id);
        assert forall|i: int| 0 <= i < front.len() implies rest.contains_key(
            (#[trigger] front[i]).cpu_id,
        ) && rest[front[i].cpu_id].0 == front[i].count by {
            assert(front[i] == entries[i]);
            assert(entries[i].cpu_id != entries[entries.len() - 1].cpu_id);
        }
        assert forall|i: int, j: int| 0 <= i < j < front.len() implies (
        #[trigger] front[i]).cpu_id != (#[trigger] front[j]).cpu_id by {
            assert(front[i] == entries[i] && front[j] == entries[j]);
        }
        assert(cpus.contains_key(last.cpu_id));
        lemma_entries_count_cpus(front, rest);
        lemma_table_total_remove(cpus, |entry: (u32, u64)| entry.0 as int, last.cpu_id);
        assert(cpu_counts(entries).drop_last() =~= cpu_counts(front));
    }
}

/// The heatmap of consistent buckets counts every event.
proof fn lemma_heatmap_counts_events(heatmap: Seq<CpuMinuteJson>, buckets: Seq<MinuteView>)
    requires
        forall|i: int| 0 <= i < buckets.len() ==> (#[trigger] buckets[i]).consistent(),
        heatmap_shows(heatmap, buckets),
    ensures
        sum(cpu_counts(heatmap)) == events_total(buckets),
    decreases buckets.len(),
{
    if buckets.len() > 0 {
        let front = buckets.drop_last();
        let v = buckets.last();
        let n = heatmap.len() - v.cpus.dom().len();
        let a = heatmap.take(n);
        let b = heatmap.skip(n);
        assert(buckets[buckets.len() - 1].consistent());
        assert forall|i: int| 0 <= i < front.len() implies (#[trigger] front[i]).consistent() by {
            assert(buckets[i] == front[i]);
        }
        lemma_heatmap_counts_events(a, front);
        lemma_entries_count_cpus(b, v.cpus);
        assert(cpu_counts(heatmap) =~= cpu_counts(a) + cpu_counts(b));
        lemma_sum_concat(cpu_counts(a), cpu_counts(b));
    }
}

/// A report agrees with itself: its histogram, its severities, its minutes and its heatmap each
/// count every event once, and the bins of a severity count the events of that severity.
pub proof fn law_report_counts_each_event_once(
    json: History24hJson,
    store: StoreView,
    now_ms: u64,
    p50_rank: u64,
    p99_rank: u64,
)
    requires
        store.consistent(),
        json.reports(store, now_ms, p50_rank, p99_rank),
    ensures
        sum(json.histogram@) == json.summary.total_events,
        json.summary.sev@[0] + json.summary.sev@[1] + json.summary.sev@[2] + json.summary.sev@[3]
            == json.summary.total_events,
        sum(minute_counts(json.minutes@)) == json.summary.total_events,
        sum(cpu_counts(json.cpu_heatmap@)) == json.summary.total_events,
        sum(json.histogram@.subrange(0, 4)) == json.summary.sev@[0],
        sum(json.histogram@.subrange(4, 7)) == json.summary.sev@[1],
        sum(json.histogram@.subrange(7, 10)) == json.summary.sev@[2],
        sum(json.histogram@.subrange(10, 20)) == json.summary.sev@[3],
{
    lemma_bins_count_events(store.buckets, json.histogram@);
    lemma_severities_count_events(store.buckets);
    lemma_minutes_count_events(json.minutes@, store.buckets);
    lemma_heatmap_counts_events(json.cpu_heatmap@, store.buckets);
    lemma_bins_count_severity(store.buckets, json.histogram@, 0);
    lemma_bins_count_severity(store.buckets, json.histogram@, 1);
    lemma_bins_count_severity(store.buckets, json.histogram@, 2);
    lemma_bins_count_severity(store.buckets, json.histogram@, 3);
    assert(forall|k: int|
        0 <= k < SEVERITY_COUNT ==> #[trigger] json.summary.sev@[k] == sev_total(store.buckets, k));
}

/// The percentiles of a report are ordered as their ranks.
pub proof fn law_report_percentiles_are_ordered(
    json: History24hJson,
    store: StoreView,
    now_ms: u64,
    p50_rank: u64,
    p99_rank: u64,
)
    requires
        json.reports(store, now_ms, p50_rank, p99_rank),
        p50_rank <= p99_rank,
    ensures
        json.summary.approx_p50_ns <= json.summary.approx_p99_ns,
{
    crate::histogram::law_percentiles_are_ordered(
        json.histogram@,
        json.summary.total_events,
        p50_rank,
        p99_rank,
    );
}

/// The average of a minute lies between its shortest and its longest event.
pub proof fn law_average_lies_between_extremes(json: MinuteBucketJson, v: MinuteView)
    requires
        v.consistent(),
        json.shows(v),
    ensures
        json.min_ns <= json.avg_ns <= json.max_ns,
{
    if v.count > 0 {
        let total = v.sum_ns as int;
        let count = v.count as int;
        let average = total / count;
        let low = v.min_ns as int;
        let high = v.max_ns as int;
        assert(low <= average <= high) by (nonlinear_arith)
            requires
                count > 0,
                low * count <= total <= high * count,
                average == total / count,
        ;
    }
}

/// No minute of a report has a longer event than the report's maximum.
pub proof fn law_maximum_covers_every_minute(buckets: Seq<MinuteView>, i: int)
    requires
        0 <= i < buckets.len(),
    ensures
        buckets[i].max_ns <= longest(buckets),
        longest(buckets) == 0 || exists|k: int|
            0 <= k < buckets.len() && (#[trigger] buckets[k]).max_ns == longest(buckets),
    decreases buckets.len(),
{
    let front = buckets.drop_last();
    if i < front.len() {
        law_maximum_covers_every_minute(front, i);
        assert(front[i] == buckets[i]);
    } else if front.len() > 0 {
        law_maximum_covers_every_minute(front, 0);
    }
    if buckets.last().max_ns > longest(front) {
        assert(buckets[buckets.len() - 1].max_ns == longest(buckets));
    } else if longest(front) != 0 {
        let k = choose|k: int|
            0 <= k < front.len() && (#[trigger] front[k]).max_ns == longest(front);
        assert(buckets[k].max_ns == longest(buckets));
    }
}

/// A figure of the buckets added up is the figure of each added one by one.
proof fn lemma_total_is_fold(
    buckets: Seq<MinuteView>,
    figure: spec_fn(MinuteView) -> int,
    adding: spec_fn(int, MinuteView) -> int,
)
    requires
        forall|total: int, v: MinuteView| #[trigger] adding(total, v) == total + figure(v),
    ensures
        total_of(buckets, figure) == buckets.fold_left(0int, adding),
    decreases buckets.len(),
{
    if buckets.len() > 0 {
        lemma_total_is_fold(buckets.drop_last(), figure, adding);
    }
}

/// The totals over buckets add up the figures of each: the events, those of a severity, those of a
/// bin, and the count and the time of a task where it has a tally.
pub proof fn law_totals_add_up_every_bucket(buckets: Seq<MinuteView>, k: int, comm: Seq<char>)
    ensures
        events_total(buckets) == buckets.fold_left(0int, |n: int, v: MinuteView| n + v.count),
        sev_total(buckets, k) == buckets.fold_left(0int, |n: int, v: MinuteView| n + v.sev[k]),
        bin_total(buckets, k) == buckets.fold_left(
            0int,
            |n: int, v: MinuteView| n + v.histogram[k],
        ),
        comm_count(buckets, comm) == buckets.fold_left(
            0int,
            |n: int, v: MinuteView|
                if v.aggressors.contains_key(comm) {
                    n + v.aggressors[comm].0
                } else {
                    n
                },
        ),
        comm_ns(buckets, comm) == buckets.fold_left(
            0int,
            |n: int, v: MinuteView|
                if v.aggressors.contains_key(comm) {
                    n + v.aggressors[comm].1
                } else {
                    n
                },
        ),
{
    lemma_total_is_fold(
        buckets,
        |v: MinuteView| v.count as int,
        |n: int, v: MinuteView| n + v.count,
    );
    lemma_total_is_fold(
        buckets,
        |v: MinuteView| v.sev[k] as int,
        |n: int, v: MinuteView| n + v.sev[k],
    );
    lemma_total_is_fold(
        buckets,
        |v: MinuteView| v.histogram[k] as int,
        |n: int, v: MinuteView| n + v.histogram[k],
    );
    lemma_total_is_fold(
        buckets,
        |v: MinuteView| tally_of(v.aggressors, comm).0 as int,
        |n: int, v: MinuteView|
            if v.aggressors.contains_key(comm) {
                n + v.aggressors[comm].0
            } else {
                n
            },
    );
    lemma_total_is_fold(
        buckets,
        |v: MinuteView| tally_of(v.aggressors, comm).1 as int,
        |n: int, v: MinuteView|
            if v.aggressors.contains_key(comm) {
                n + v.aggressors[comm].1
            } else {
                n
            },
    );
}

/// The totals can be had exactly if every bin and every task stays in range when the buckets are added
/// up. A report can be made of them.
pub proof fn law_totals_are_there_if_they_fit(
    store: History24hStore,
    totals: Option<HistoryTotals>,
    now_ms: u64,
    p50_rank: u64,
    p99_rank: u64,
)
    requires
        store.wf(),
        call_ensures(History24hStore::totals, (&store,), totals),
    ensures
        call_requires(History24hStore::totals, (&store,)),
        totals is Some <==> {
            &&& forall|bin: int|
                0 <= bin < 20 ==> #[trigger] bin_total(store@.buckets, bin) <= u32::MAX
            &&& forall|comm: Seq<char>| #[trigger] comm_count(store@.buckets, comm) <= u32::MAX
            &&& forall|comm: Seq<char>| #[trigger] comm_ns(store@.buckets, comm) <= u64::MAX
        },
        totals matches Some(t) ==> {
            &&& call_requires(
                History24hStore::history24h,
                (&store, t, now_ms, p50_rank, p99_rank),
            )
            &&& t.total_events == events_total(store@.buckets)
            &&& t.max_ns == longest(store@.buckets)
            &&& t.histogram@.len() == 20
            &&& forall|bin: int|
                0 <= bin < 20 ==> #[trigger] t.histogram@[bin] == bin_total(store@.buckets, bin)
            &&& forall|k: int|
                0 <= k < 4 ==> #[trigger] t.sev@[k] == sev_total(store@.buckets, k)
            &&& t.aggressors.wf()
            &&& forall|comm: Seq<char>| #[trigger]
                t.aggressors@.contains_key(comm) <==> exists|b: int|
                    0 <= b < store@.buckets.len() && (
                    #[trigger] store@.buckets[b]).aggressors.contains_key(comm)
            &&& forall|comm: Seq<char>| #[trigger]
                t.aggressors@.contains_key(comm) ==> t.aggressors@[comm].0 == comm_count(
                    store@.buckets,
                    comm,
                ) && t.aggressors@[comm].1 == comm_ns(store@.buckets, comm)
        },
{
    if let Some(t) = totals {
        let buckets = store@.buckets;
        assert forall|comm: Seq<char>| #[trigger]
            t.aggressors@.contains_key(comm) implies t.aggressors@[comm].0 == comm_count(
            buckets,
            comm,
        ) && t.aggressors@[comm].1 == comm_ns(buckets, comm) by {
            lemma_total_monotone(buckets, 0, |v: MinuteView| tally_of(v.aggressors, comm).0 as int);
            lemma_total_monotone(buckets, 0, |v: MinuteView| tally_of(v.aggressors, comm).1 as int);
            assert(comm_count(buckets, comm) <= u32::MAX);
            assert(comm_ns(buckets, comm) <= u64::MAX);
        }
        assert forall|comm: Seq<char>| #[trigger]
            t.aggressors@.contains_key(comm) <==> exists|b: int|
                0 <= b < buckets.len() && (#[trigger] buckets[b]).aggressors.contains_key(comm) by {
            assert(t.aggressors@.contains_key(comm) == comm_seen(buckets, comm));
        }
    }
}

/// Each minute of a report is that of its bucket: its count, its extremes, its severities, and the
/// mean of its durations, rounded down. Only a bucket without a shortest event shows zero for it.
pub proof fn law_report_shows_each_minute(
    store: History24hStore,
    totals: HistoryTotals,
    now_ms: u64,
    p50_rank: u64,
    p99_rank: u64,
    json: History24hJson,
    i: int,
)
    requires
        call_ensures(
            History24hStore::history24h,
            (&store, totals, now_ms, p50_rank, p99_rank),
            json,
        ),
        0 <= i < store@.buckets.len(),
    ensures
        json.minutes@.len() == store@.buckets.len(),
        ({
            let shown = json.minutes@[i];
            let v = store@.buckets[i];
            &&& shown.minute_ts == v.minute_ts
            &&& shown.count == v.count
            &&& shown.max_ns == v.max_ns
            &&& v.min_ns < u64::MAX ==> shown.min_ns == v.min_ns
            &&& v.min_ns == u64::MAX ==> shown.min_ns == 0
            &&& v.count > 0 ==> shown.avg_ns * v.count <= v.sum_ns < (shown.avg_ns + 1) * v.count
            &&& v.count == 0 ==> shown.avg_ns == 0
            &&& shown.sev@ == v.sev
        }),
{
    let shown = json.minutes@[i];
    let v = store@.buckets[i];
    assert(shown.shows(v));
    if v.count > 0 {
        lemma_quotient(v.sum_ns as int, v.count as int);
    }
}

/// What a quotient is.
proof fn lemma_quotient(total: int, count: int)
    requires
        count > 0,
    ensures
        (total / count) * count <= total < (total / count + 1) * count,
{
    let q = total / count;
    assert(q * count <= total < (q + 1) * count) by (nonlinear_arith)
        requires
            count > 0,
            q == total / count,
    ;
}

/// The average of a minute is the mean of its events, rounded down: where the bucket sums up these
/// events, their total duration lies between the average times their number and that of the next.
pub proof fn law_average_is_the_mean_of_the_events(
    store: History24hStore,
    totals: HistoryTotals,
    now_ms: u64,
    p50_rank: u64,
    p99_rank: u64,
    json: History24hJson,
    i: int,
    events: Seq<Sample>,
)
    requires
        call_ensures(
            History24hStore::history24h,
            (&store, totals, now_ms, p50_rank, p99_rank),
            json,
        ),
        0 <= i < store@.buckets.len(),
        store@.buckets[i].count == events.len(),
        store@.buckets[i].sum_ns == events.fold_left(0int, |n: int, s: Sample| n + s.duration_ns),
        events.len() > 0,
    ensures
        json.minutes@[i].avg_ns * events.len() <= events.fold_left(
            0int,
            |n: int, s: Sample| n + s.duration_ns,
        ) < (json.minutes@[i].avg_ns + 1) * events.len(),
{
    law_report_shows_each_minute(store, totals, now_ms, p50_rank, p99_rank, json, i);
}

/// The summary of a report: the number of events, those of each severity and those of each bin are the
/// sums over all buckets, the maximum is that of the longest bucket, and the window reaches from the
/// first bucket to now.
pub proof fn law_summary_sums_up_the_buckets(
    store: History24hStore,
    totals: HistoryTotals,
    now_ms: u64,
    p50_rank: u64,
    p99_rank: u64,
    json: History24hJson,
    k: int,
    bin: int,
)
    requires
        call_ensures(
            History24hStore::history24h,
            (&store, totals, now_ms, p50_rank, p99_rank),
            json,
        ),
        0 <= k < 4,
        0 <= bin < 20,
    ensures
        json.summary.total_events == store@.buckets.fold_left(
            0int,
            |n: int, v: MinuteView| n + v.count,
        ),
        json.summary.sev@[k] == store@.buckets.fold_left(
            0int,
            |n: int, v: MinuteView| n + v.sev[k],
        ),
        json.histogram@.len() == 20,
        json.histogram@[bin] == store@.buckets.fold_left(
            0int,
            |n: int, v: MinuteView| n + v.histogram[bin],
        ),
        forall|i: int|
            0 <= i < store@.buckets.len() ==> (#[trigger] store@.buckets[i]).max_ns
                <= json.summary.max_ns,
        json.summary.max_ns == 0 || exists|i: int|
            0 <= i < store@.buckets.len() && (#[trigger] store@.buckets[i]).max_ns
                == json.summary.max_ns,
        store@.buckets.len() > 0 ==> json.summary.window_start_ms == store@.buckets[0].minute_ts
            * 1000,
        store@.buckets.len() == 0 ==> json.summary.window_start_ms == now_ms,
        json.summary.window_end_ms == now_ms,
{
    law_totals_add_up_every_bucket(store@.buckets, k, Seq::empty());
    law_totals_add_up_every_bucket(store@.buckets, bin, Seq::empty());
    assert(json.summary.sev@[k] == sev_total(store@.buckets, k));
    assert(json.histogram@[bin] == bin_total(store@.buckets, bin));
    assert forall|i: int| 0 <= i < store@.buckets.len() implies (
    #[trigger] store@.buckets[i]).max_ns <= json.summary.max_ns by {
        law_maximum_covers_every_minute(store@.buckets, i);
    }
    if store@.buckets.len() > 0 {
        law_maximum_covers_every_minute(store@.buckets, 0);
    }
}

/// The longest events of a report are those of the ranking, in its order and with all their fields.
/// The summary describes the first of them, or nothing if there is none.
pub proof fn law_report_lists_the_ranking(
    store: History24hStore,
    totals: HistoryTotals,
    now_ms: u64,
    p50_rank: u64,
    p99_rank: u64,
    json: History24hJson,
)
    requires
        call_ensures(
            History24hStore::history24h,
            (&store, totals, now_ms, p50_rank, p99_rank),
            json,
        ),
    ensures
        json.worst_events@.len() == store@.worst.len(),
        forall|i: int|
            0 <= i < store@.worst.len() ==> {
                let shown = #[trigger] json.worst_events@[i];
                let w = store@.worst[i];
                &&& shown.wall_time_ms == w.wall_time_ms
                &&& shown.duration_ns == w.duration_ns
                &&& shown.cpu_id == w.cpu_id
                &&& shown.victim_pid == w.victim_pid
                &&& shown.aggressor_pid == w.aggressor_pid
                &&& shown.victim_comm@ == w.victim_comm
                &&& shown.aggressor_comm@ == w.aggressor_comm
            },
        store@.worst.len() > 0 ==> {
            &&& json.summary.max_wall_time_ms == store@.worst[0].wall_time_ms
            &&& json.summary.max_aggressor@ == store@.worst[0].aggressor_comm
            &&& json.summary.max_victim@ == store@.worst[0].victim_comm
            &&& json.summary.max_cpu == store@.worst[0].cpu_id
        },
        store@.worst.len() == 0 ==> {
            &&& json.summary.max_wall_time_ms == 0
            &&& json.summary.max_aggressor@.len() == 0
            &&& json.summary.max_victim@.len() == 0
            &&& json.summary.max_cpu == 0
        },
{
    assert forall|i: int| 0 <= i < store@.worst.len() implies ({
        let shown = #[trigger] json.worst_events@[i];
        let w = store@.worst[i];
        &&& shown.wall_time_ms == w.wall_time_ms
        &&& shown.duration_ns == w.duration_ns
        &&& shown.cpu_id == w.cpu_id
        &&& shown.victim_pid == w.victim_pid
        &&& shown.aggressor_pid == w.aggressor_pid
        &&& shown.victim_comm@ == w.victim_comm
        &&& shown.aggressor_comm@ == w.aggressor_comm
    }) by {
        assert(json.worst_events@[i]@ == store@.worst[i]);
    }
}

/// The two percentiles of a report are where their ranks fall in its own histogram: each is the upper
/// bound of the first bin up to which that many of the report's events were counted, one second if
/// that is the open last bin, and zero without events.
pub proof fn law_report_percentiles_are_where_their_ranks_fall(
    store: History24hStore,
    totals: HistoryTotals,
    now_ms: u64,
    p50_rank: u64,
    p99_rank: u64,
    json: History24hJson,
    p50_bin: int,
    p99_bin: int,
)
    requires
        call_ensures(
            History24hStore::history24h,
            (&store, totals, now_ms, p50_rank, p99_rank),
            json,
        ),
        0 <= p50_bin <= 20,
        p50_bin < 20 ==> json.histogram@.take(p50_bin + 1).fold_left(
            0int,
            |total: int, count: u32| total + count,
        ) >= p50_rank,
        forall|n: int|
            0 < n <= p50_bin ==> (#[trigger] json.histogram@.take(n)).fold_left(
                0int,
                |total: int, count: u32| total + count,
            ) < p50_rank,
        0 <= p99_bin <= 20,
        p99_bin < 20 ==> json.histogram@.take(p99_bin + 1).fold_left(
            0int,
            |total: int, count: u32| total + count,
        ) >= p99_rank,
        forall|n: int|
            0 < n <= p99_bin ==> (#[trigger] json.histogram@.take(n)).fold_left(
                0int,
                |total: int, count: u32| total + count,
            ) < p99_rank,
    ensures
        json.summary.total_events == 0 ==> json.summary.approx_p50_ns == 0
            && json.summary.approx_p99_ns == 0,
        json.summary.total_events > 0 ==> json.summary.approx_p50_ns == if p50_bin < 19 {
            scale_step(p50_bin)
        } else {
            1_000_000_000
        },
        json.summary.total_events > 0 ==> json.summary.approx_p99_ns == if p99_bin < 19 {
            scale_step(p99_bin)
        } else {
            1_000_000_000
        },
{
    lemma_percentile_by_scale(json.histogram@, json.summary.total_events, p50_rank, p50_bin);
    lemma_percentile_by_scale(json.histogram@, json.summary.total_events, p99_rank, p99_bin);
}

/// The top list of a report names the tasks with the longest totals over all buckets: at most twenty,
/// longest first, each once and with its count and time added up bucket by bucket. No task that is
/// left out has a longer total than one that is named, and one is left out only if twenty are named.
pub proof fn law_report_names_the_top_aggressors(
    store: History24hStore,
    totals: HistoryTotals,
    now_ms: u64,
    p50_rank: u64,
    p99_rank: u64,
    json: History24hJson,
    i: int,
)
    requires
        store.wf(),
        call_ensures(
            History24hStore::totals,
            (&store,),
            Some(totals),
        ),
        call_ensures(
            History24hStore::history24h,
            (&store, totals, now_ms, p50_rank, p99_rank),
            json,
        ),
        0 <= i < json.top_aggressors@.len(),
    ensures
        json.top_aggressors@.len() <= 20,
        ({
            let top = json.top_aggressors@[i];
            let comm = top.comm@;
            &&& exists|b: int|
                0 <= b < store@.buckets.len() && (
                #[trigger] store@.buckets[b]).aggressors.contains_key(comm)
            &&& top.count == store@.buckets.fold_left(
                0int,
                |n: int, v: MinuteView|
                    if v.aggressors.contains_key(comm) {
                        n + v.aggressors[comm].0
                    } else {
                        n
                    },
            )
            &&& top.total_ns == store@.buckets.fold_left(
                0int,
                |n: int, v: MinuteView|
                    if v.aggressors.contains_key(comm) {
                        n + v.aggressors[comm].1
                    } else {
                        n
                    },
            )
        }),
        forall|j: int|
            0 <= j < i ==> (#[trigger] json.top_aggressors@[j]).total_ns
                >= json.top_aggressors@[i].total_ns && json.top_aggressors@[j].comm@
                != json.top_aggressors@[i].comm@,
{
    let buckets = store@.buckets;
    let top = json.top_aggressors@;
    let comm = top[i].comm@;
    lemma_top_in_full(top, all_tallies(buckets));
    assert(all_tallies(buckets).contains_key(comm));
    law_totals_add_up_every_bucket(buckets, 0, comm);
    lemma_total_monotone(buckets, 0, |v: MinuteView| tally_of(v.aggressors, comm).0 as int);
    lemma_total_monotone(buckets, 0, |v: MinuteView| tally_of(v.aggressors, comm).1 as int);
    assert(comm_count(buckets, comm) <= u32::MAX);
    assert(comm_ns(buckets, comm) <= u64::MAX);
}

/// A task that the top list leaves out ran no longer in all than any that it names, and the list then
/// names twenty.
pub proof fn law_report_leaves_out_no_longer_aggressor(
    store: History24hStore,
    totals: HistoryTotals,
    now_ms: u64,
    p50_rank: u64,
    p99_rank: u64,
    json: History24hJson,
    comm: Seq<char>,
    b: int,
)
    requires
        store.wf(),
        call_ensures(
            History24hStore::totals,
            (&store,),
            Some(totals),
        ),
        call_ensures(
            History24hStore::history24h,
            (&store, totals, now_ms, p50_rank, p99_rank),
            json,
        ),
        0 <= b < store@.buckets.len(),
        store@.buckets[b].aggressors.contains_key(comm),
        forall|i: int|
            0 <= i < json.top_aggressors@.len() ==> (#[trigger] json.top_aggressors@[i]).comm@
                != comm,
    ensures
        json.top_aggressors@.len() == 20,
        forall|i: int|
            0 <= i < 20 ==> (#[trigger] json.top_aggressors@[i]).total_ns
                >= store@.buckets.fold_left(
                0int,
                |n: int, v: MinuteView|
                    if v.aggressors.contains_key(comm) {
                        n + v.aggressors[comm].1
                    } else {
                        n
                    },
            ),
{
    let buckets = store@.buckets;
    let top = json.top_aggressors@;
    let tallies = all_tallies(buckets);
    assert(comm_seen(buckets, comm));
    assert(tallies.contains_key(comm));
    assert(totals.aggressors.wf() && totals.aggressors@ == tallies);
    totals.aggressors.lemma_finite();
    lemma_top_in_full(top, tallies);
    law_totals_add_up_every_bucket(buckets, 0, comm);
    lemma_total_monotone(buckets, 0, |v: MinuteView| tally_of(v.aggressors, comm).1 as int);
    assert(comm_ns(buckets, comm) <= u64::MAX);
    assert(forall|i: int| 0 <= i < top.len() ==> tallies[comm].1 <= (#[trigger] top[i]).total_ns);
    if top.len() < 20 {
        let names = top.map_values(|e: AggressorSummaryJson| e.comm@);
        assert(names.no_duplicates()) by {
            assert forall|i: int, j: int|
                0 <= i < names.len() && 0 <= j < names.len() && i != j implies names[i]
                != names[j] by {
                if i < j {
                    assert(top[i].comm@ != top[j].comm@);
                } else {
                    assert(top[j].comm@ != top[i].comm@);
                }
            }
        }
        names.unique_seq_to_set();
        assert(names.to_set().subset_of(tallies.dom())) by {
            assert forall|c: Seq<char>| names.to_set().contains(c) implies tallies.dom().contains(
                c,
            ) by {
                let i = choose|i: int| 0 <= i < names.len() && names[i] == c;
                assert(tallies.contains_key(top[i].comm@));
            }
        }
        vstd::set_lib::lemma_subset_equality(names.to_set(), tallies.dom());
        assert(names.to_set().contains(comm));
        let i = choose|i: int| 0 <= i < names.len() && names[i] == comm;
        assert(top[i].comm@ == comm);
    }
}

/// Where the cores of a bucket stand in a heatmap.
proof fn lemma_heatmap_part(heatmap: Seq<CpuMinuteJson>, buckets: Seq<MinuteView>, i: int)
    requires
        heatmap_shows(heatmap, buckets),
        0 <= i < buckets.len(),
    ensures
        ({
            let cores = |n: int, v: MinuteView| n + v.cpus.dom().len();
            let lo = buckets.take(i).fold_left(0int, cores);
            let hi = buckets.take(i + 1).fold_left(0int, cores);
            &&& 0 <= lo <= hi <= heatmap.len()
            &&& heatmap.len() == buckets.fold_left(0int, cores)
            &&& lists_cpus(heatmap.subrange(lo, hi), buckets[i])
        }),
    decreases buckets.len(),
{
    let cores = |n: int, v: MinuteView| n + v.cpus.dom().len();
    let front = buckets.drop_last();
    let n = heatmap.len() - buckets.last().cpus.dom().len();
    let head = heatmap.take(n);
    let lo = buckets.take(i).fold_left(0int, cores);
    let hi = buckets.take(i + 1).fold_left(0int, cores);
    if front.len() > 0 {
        lemma_heatmap_part(head, front, if i < front.len() { i } else { 0 });
    } else {
        assert(heatmap_shows(head, front));
        assert(head.len() == 0);
        assert(front.fold_left(0int, cores) == 0);
    }
    assert(head.len() == front.fold_left(0int, cores));
    assert(buckets.take(i + 1).drop_last() =~= buckets.take(i));
    if i < front.len() {
        assert(front.take(i) =~= buckets.take(i));
        assert(front.take(i + 1) =~= buckets.take(i + 1));
        assert(head.subrange(lo, hi) =~= heatmap.subrange(lo, hi));
    } else {
        assert(buckets.take(i) =~= front);
        assert(buckets.take(i + 1) =~= buckets);
        assert(heatmap.skip(n) =~= heatmap.subrange(lo, hi));
    }
}

/// The heatmap of a report lists, minute after minute, each core of the bucket once, with the minute,
/// the count and the longest duration that the bucket has for it, and nothing else.
pub proof fn law_heatmap_lists_each_core_of_each_minute(
    store: History24hStore,
    totals: HistoryTotals,
    now_ms: u64,
    p50_rank: u64,
    p99_rank: u64,
    json: History24hJson,
    i: int,
    part: Seq<CpuMinuteJson>,
)
    requires
        call_ensures(
            History24hStore::history24h,
            (&store, totals, now_ms, p50_rank, p99_rank),
            json,
        ),
        0 <= i < store@.buckets.len(),
        part == json.cpu_heatmap@.subrange(
            store@.buckets.take(i).fold_left(
                0int,
                |n: int, v: MinuteView| n + v.cpus.dom().len(),
            ),
            store@.buckets.take(i + 1).fold_left(
                0int,
                |n: int, v: MinuteView| n + v.cpus.dom().len(),
            ),
        ),
    ensures
        json.cpu_heatmap@.len() == store@.buckets.fold_left(
            0int,
            |n: int, v: MinuteView| n + v.cpus.dom().len(),
        ),
        part.len() == store@.buckets[i].cpus.dom().len(),
        forall|k: int|
            0 <= k < part.len() ==> {
                let shown = #[trigger] part[k];
                &&& shown.minute_ts == store@.buckets[i].minute_ts
                &&& store@.buckets[i].cpus.contains_key(shown.cpu_id)
                &&& shown.count == store@.buckets[i].cpus[shown.cpu_id].0
                &&& shown.max_ns == store@.buckets[i].cpus[shown.cpu_id].1
            },
        forall|cpu: u32| #[trigger]
            store@.buckets[i].cpus.contains_key(cpu) ==> exists|k: int|
                0 <= k < part.len() && (#[trigger] part[k]).cpu_id == cpu,
        forall|k: int, l: int|
            0 <= k < l < part.len() ==> (#[trigger] part[k]).cpu_id != (#[trigger] part[l]).cpu_id,
{
    lemma_heatmap_part(json.cpu_heatmap@, store@.buckets, i);
}

} // verus!
