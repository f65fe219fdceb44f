//! The events of one minute, summed up.

use std::collections::HashMap;
use vstd::prelude::*;
use vstd::std_specs::hash::*;
use crate::aggressor::{tally_added, AggressorTable};
use crate::histogram::{
    first_bin_of, hist_bin, hist_bucket_index, law_severity_follows_bin, lemma_bin_by_scale,
    lemma_first_bin_above, lemma_severity_sum_update, lemma_sum_bounds, lemma_sum_update,
    lemma_sum_zero, lies_in_bin, lies_in_severity, severity, severity_index, sum, sum_of_severity,
    BIN_COUNT, SEVERITY_COUNT,
};

verus! {

broadcast use group_hash_axioms;

/// What a minute bucket holds.
pub struct MinuteView {
    pub minute_ts: u64,
    pub count: u32,
    pub max_ns: u64,
    pub min_ns: u64,
    pub sum_ns: u64,
    pub sev: Seq<u32>,
    pub histogram: Seq<u32>,
    /// Count and total duration by task name.
    pub aggressors: Map<Seq<char>, (u32, u64)>,
    /// Count and longest duration by core.
    pub cpus: Map<u32, (u32, u64)>,
}

/// What a bucket is told of an event.
pub struct Sample {
    pub duration_ns: u64,
    pub aggressor_comm: Seq<char>,
    pub cpu_id: u32,
}

/// The count and the longest duration of a core; zero for a core without events.
pub open spec fn cpu_of(cpus: Map<u32, (u32, u64)>, cpu_id: u32) -> (u32, u64) {
    if cpus.contains_key(cpu_id) {
        cpus[cpu_id]
    } else {
        (0, 0)
    }
}

/// A figure of the entries of a table added up.
pub open spec fn table_total<K>(
    table: Map<K, (u32, u64)>,
    figure: spec_fn((u32, u64)) -> int,
) -> int
    decreases table.dom().len(),
    when table.dom().finite()
{
    if table.dom().len() == 0 {
        0
    } else {
        let k = table.dom().choose();
        figure(table[k]) + table_total(table.remove(k), figure)
    }
}

/// The counts in a table of tasks or cores added up.
pub open spec fn counts_total<K>(table: Map<K, (u32, u64)>) -> int {
    table_total(table, |entry: (u32, u64)| entry.0 as int)
}

/// The durations in a table of tasks added up.
pub open spec fn durations_total<K>(table: Map<K, (u32, u64)>) -> int {
    table_total(table, |entry: (u32, u64)| entry.1 as int)
}

/// Any entry can be taken out of a total.
pub proof fn lemma_table_total_remove<K>(
    table: Map<K, (u32, u64)>,
    figure: spec_fn((u32, u64)) -> int,
    k: K,
)
    requires
        table.dom().finite(),
        table.contains_key(k),
    ensures
        table_total(table, figure) == figure(table[k]) + table_total(table.remove(k), figure),
    decreases table.dom().len(),
{
    let c = table.dom().choose();
    if c != k {
        lemma_table_total_remove(table.remove(c), figure, k);
        lemma_table_total_remove(table.remove(k), figure, c);
        assert(table.remove(c).remove(k) =~= table.remove(k).remove(c));
    }
}

/// A new entry changes a total by what it has more than the one before it.
proof fn lemma_table_total_insert<K>(
    table: Map<K, (u32, u64)>,
    figure: spec_fn((u32, u64)) -> int,
    k: K,
    entry: (u32, u64),
)
    requires
        table.dom().finite(),
    ensures
        table_total(table.insert(k, entry), figure) == table_total(table, figure) + figure(entry)
            - if table.contains_key(k) {
            figure(table[k])
        } else {
            0
        },
{
    let after = table.insert(k, entry);
    lemma_table_total_remove(after, figure, k);
    if table.contains_key(k) {
        lemma_table_total_remove(table, figure, k);
        assert(after.remove(k) =~= table.remove(k));
    } else {
        assert(after.remove(k) =~= table);
    }
}

impl MinuteView {
    /// The bucket of a minute before its first event.
    pub open spec fn empty(minute_ts: u64) -> MinuteView {
        MinuteView {
            minute_ts,
            count: 0,
            max_ns: 0,
            min_ns: u64::MAX,
            sum_ns: 0,
            sev: Seq::new(SEVERITY_COUNT as nat, |i: int| 0u32),
            histogram: Seq::new(BIN_COUNT as nat, |i: int| 0u32),
            aggressors: Map::empty(),
            cpus: Map::empty(),
        }
    }

    /// One more event of this duration keeps the count and the sum in range.
    pub open spec fn has_room(self, duration_ns: u64) -> bool {
        &&& self.count < u32::MAX
        &&& self.sum_ns + duration_ns <= u64::MAX
    }

    /// The bucket with one more event.
    pub open spec fn recorded(self, s: Sample) -> MinuteView {
        let sev = severity(s.duration_ns);
        let bin = hist_bin(s.duration_ns);
        let cpu = cpu_of(self.cpus, s.cpu_id);
        MinuteView {
            minute_ts: self.minute_ts,
            count: (self.count + 1) as u32,
            max_ns: if s.duration_ns > self.max_ns {
                s.duration_ns
            } else {
                self.max_ns
            },
            min_ns: if s.duration_ns < self.min_ns {
                s.duration_ns
            } else {
                self.min_ns
            },
            sum_ns: (self.sum_ns + s.duration_ns) as u64,
            sev: self.sev.update(sev, (self.sev[sev] + 1) as u32),
            histogram: self.histogram.update(bin, (self.histogram[bin] + 1) as u32),
            aggressors: tally_added(self.aggressors, s.aggressor_comm, 1, s.duration_ns),
            cpus: self.cpus.insert(
                s.cpu_id,
                (
                    (cpu.0 + 1) as u32,
                    if s.duration_ns > cpu.1 {
                        s.duration_ns
                    } else {
                        cpu.1
                    },
                ),
            ),
        }
    }

    /// The parts agree: every event has one severity, one bin among those of its severity, one task
    /// and one core, the tasks share the whole duration, the longest event is that of some core, and
    /// the durations lie between the shortest and the longest.
    pub open spec fn consistent(self) -> bool {
        &&& self.sev.len() == SEVERITY_COUNT
        &&& self.histogram.len() == BIN_COUNT
        &&& sum(self.sev) == self.count
        &&& sum(self.histogram) == self.count
        &&& forall|k: int|
            0 <= k < SEVERITY_COUNT ==> #[trigger] self.sev[k] == sum_of_severity(self.histogram, k)
        &&& forall|c: Seq<char>| #[trigger]
            self.aggressors.contains_key(c) ==> self.aggressors[c].0 <= self.count
                && self.aggressors[c].1 <= self.sum_ns
        &&& forall|k: u32| #[trigger]
            self.cpus.contains_key(k) ==> self.cpus[k].0 <= self.count && self.cpus[k].1
                <= self.max_ns
        &&& self.aggressors.dom().finite()
        &&& self.cpus.dom().finite()
        &&& counts_total(self.aggressors) == self.count
        &&& durations_total(self.aggressors) == self.sum_ns
        &&& counts_total(self.cpus) == self.count
        &&& self.count > 0 ==> exists|k: u32| #[trigger]
            self.cpus.contains_key(k) && self.cpus[k].1 == self.max_ns
        &&& self.count == 0 ==> self == MinuteView::empty(self.minute_ts)
        &&& self.min_ns * self.count <= self.sum_ns <= self.max_ns * self.count
        &&& self.count > 0 ==> self.min_ns <= self.max_ns
    }
}

/// An empty bucket is consistent.
pub proof fn lemma_empty_consistent(minute_ts: u64)
    ensures
        MinuteView::empty(minute_ts).consistent(),
{
    let v = MinuteView::empty(minute_ts);
    lemma_sum_zero(v.sev);
    lemma_sum_zero(v.histogram);
    assert forall|k: int| 0 <= k < SEVERITY_COUNT implies #[trigger] v.sev[k] == sum_of_severity(
        v.histogram,
        k,
    ) by {
        lemma_sum_zero(v.histogram.subrange(first_bin_of(k), first_bin_of(k + 1)));
    }
}

/// Recording an event keeps a bucket consistent.
pub proof fn lemma_recorded_consistent(v: MinuteView, s: Sample)
    requires
        v.consistent(),
        v.has_room(s.duration_ns),
    ensures
        v.recorded(s).consistent(),
{
    let w = v.recorded(s);
    let sev = severity(s.duration_ns);
    let bin = hist_bin(s.duration_ns);
    lemma_first_bin_above(s.duration_ns as int, 0);
    lemma_sum_bounds(v.sev, sev);
    lemma_sum_bounds(v.histogram, bin);
    lemma_sum_update(v.sev, sev, (v.sev[sev] + 1) as u32);
    lemma_sum_update(v.histogram, bin, (v.histogram[bin] + 1) as u32);
    law_severity_follows_bin(s.duration_ns);
    assert forall|k: int| 0 <= k < SEVERITY_COUNT implies #[trigger] w.sev[k] == sum_of_severity(
        w.histogram,
        k,
    ) by {
        lemma_severity_sum_update(v.histogram, bin, (v.histogram[bin] + 1) as u32, k);
        assert(v.sev[k] == sum_of_severity(v.histogram, k));
    }
    let count = |entry: (u32, u64)| entry.0 as int;
    let duration = |entry: (u32, u64)| entry.1 as int;
    let c = s.aggressor_comm;
    lemma_table_total_insert(v.aggressors, count, c, w.aggressors[c]);
    lemma_table_total_insert(v.aggressors, duration, c, w.aggressors[c]);
    lemma_table_total_insert(v.cpus, count, s.cpu_id, w.cpus[s.cpu_id]);
    if s.duration_ns > v.max_ns || v.count == 0 {
        assert(w.cpus.contains_key(s.cpu_id) && w.cpus[s.cpu_id].1 == w.max_ns);
    } else {
        let k = choose|k: u32| #[trigger] v.cpus.contains_key(k) && v.cpus[k].1 == v.max_ns;
        assert(w.cpus.contains_key(k) && w.cpus[k].1 == w.max_ns);
    }
    assert(w.min_ns * w.count <= w.sum_ns) by (nonlinear_arith)
        requires
            v.min_ns * v.count <= v.sum_ns,
            w.min_ns <= v.min_ns,
            w.min_ns <= s.duration_ns,
            w.count == v.count + 1,
            w.sum_ns == v.sum_ns + s.duration_ns,
    ;
    assert(w.sum_ns <= w.max_ns * w.count) by (nonlinear_arith)
        requires
            v.sum_ns <= v.max_ns * v.count,
            v.max_ns <= w.max_ns,
            s.duration_ns <= w.max_ns,
            w.count == v.count + 1,
            w.sum_ns == v.sum_ns + s.duration_ns,
    ;
}

/// A bucket of the 24-hour history: the events of one minute.
pub struct MinuteBucket {
    minute_ts: u64,
    count: u32,
    max_ns: u64,
    min_ns: u64,
    sum_ns: u64,
    sev: [u32; SEVERITY_COUNT],
    histogram: [u32; BIN_COUNT],
    aggressors: AggressorTable,
    cpus: HashMap<u32, (u32, u64)>,
}

impl View for MinuteBucket {
    type V = MinuteView;

    closed spec fn view(&self) -> MinuteView {
        MinuteView {
            minute_ts: self.minute_ts,
            count: self.count,
            max_ns: self.max_ns,
            min_ns: self.min_ns,
            sum_ns: self.sum_ns,
            sev: self.sev@,
            histogram: self.histogram@,
            aggressors: self.aggressors@,
            cpus: self.cpus@,
        }
    }
}

impl MinuteBucket {
    /// The table of tasks is in order.
    pub closed spec fn table_wf(self) -> bool {
        self.aggressors.wf()
    }

    /// The table of tasks is in order and the parts agree.
    pub open spec fn wf(self) -> bool {
        self.table_wf() && self@.consistent()
    }

    /// The bucket of the minute that starts at `minute_ts` seconds.
    pub fn new(minute_ts: u64) -> (bucket: MinuteBucket)
        ensures
            bucket.wf(),
            bucket@ == MinuteView::empty(minute_ts),
    {
        let bucket = MinuteBucket {
            minute_ts,
            count: 0,
            max_ns: 0,
            min_ns: u64::MAX,
            sum_ns: 0,
            sev: [0u32; SEVERITY_COUNT],
            histogram: [0u32; BIN_COUNT],
            aggressors: AggressorTable::new(),
            cpus: HashMap::new(),
        };
        proof {
            assert(bucket@.sev =~= MinuteView::empty(minute_ts).sev);
            assert(bucket@.histogram =~= MinuteView::empty(minute_ts).histogram);
            lemma_empty_consistent(minute_ts);
        }
        bucket
    }

    /// When the minute starts, in seconds.
    pub fn minute_ts(&self) -> (minute_ts: u64)
        ensures
            minute_ts == self@.minute_ts,
    {
        self.minute_ts
    }

    /// The number of events.
    pub fn count(&self) -> (count: u32)
        ensures
            count == self@.count,
    {
        self.count
    }

    /// The longest duration; zero before the first event.
    pub fn max_ns(&self) -> (max_ns: u64)
        ensures
            max_ns == self@.max_ns,
    {
        self.max_ns
    }

    /// The shortest duration; the greatest number before the first event.
    pub fn min_ns(&self) -> (min_ns: u64)
        ensures
            min_ns == self@.min_ns,
    {
        self.min_ns
    }

    /// The durations added up.
    pub fn sum_ns(&self) -> (sum_ns: u64)
        ensures
            sum_ns == self@.sum_ns,
    {
        self.sum_ns
    }

    /// The number of events by severity.
    pub fn sev(&self) -> (sev: &[u32; SEVERITY_COUNT])
        ensures
            sev@ == self@.sev,
    {
        &self.sev
    }

    /// The number of events by histogram bin.
    pub fn histogram(&self) -> (histogram: &[u32; BIN_COUNT])
        ensures
            histogram@ == self@.histogram,
    {
        &self.histogram
    }

    /// The tallies by task name.
    pub fn aggressors(&self) -> (table: &AggressorTable)
        requires
            self.wf(),
        ensures
            table.wf(),
            table@ == self@.aggressors,
    {
        &self.aggressors
    }

    /// Count and longest duration by core.
    pub fn cpus(&self) -> (cpus: &HashMap<u32, (u32, u64)>)
        ensures
            cpus@ == self@.cpus,
    {
        &self.cpus
    }

    /// Whether one more event of this duration can be counted.
    pub fn has_room(&self, duration_ns: u64) -> (room: bool)
        ensures
            room == self@.has_room(duration_ns),
    {
        self.count < u32::MAX && duration_ns <= u64::MAX - self.sum_ns
    }

    /// Counts one event.
    pub fn record(&mut self, duration_ns: u64, aggressor_comm: &str, cpu_id: u32)
        requires
            old(self).wf(),
            old(self)@.has_room(duration_ns),
        ensures
            final(self).wf(),
            final(self)@ == old(self)@.recorded(
                Sample { duration_ns, aggressor_comm: aggressor_comm@, cpu_id },
            ),
    {
        let ghost s = Sample { duration_ns, aggressor_comm: aggressor_comm@, cpu_id };
        let ghost before = self@;
        proof {
            lemma_recorded_consistent(before, s);
        }
        self.count += 1;
        if duration_ns > self.max_ns {
            self.max_ns = duration_ns;
        }
        if duration_ns < self.min_ns {
            self.min_ns = duration_ns;
        }
        self.sum_ns += duration_ns;
        let sev: usize = severity_index(duration_ns);
        let bin: usize = hist_bucket_index(duration_ns);
        proof {
            lemma_sum_bounds(before.sev, sev as int);
            lemma_sum_bounds(before.histogram, bin as int);
        }
        self.sev[sev] += 1;
        self.histogram[bin] += 1;
        self.aggressors.add(aggressor_comm, 1, duration_ns);
        let entry = self.cpus.entry(cpu_id).or_insert((0, 0));
        entry.0 += 1;
        if duration_ns > entry.1 {
            entry.1 = duration_ns;
        }
        proof {
            assert(self@.sev =~= before.recorded(s).sev);
            assert(self@.histogram =~= before.recorded(s).histogram);
            assert(self@.cpus =~= before.recorded(s).cpus);
        }
    }
}

/// The bucket of a minute after these events have been recorded in turn.
pub open spec fn replayed(minute_ts: u64, trace: Seq<Sample>) -> MinuteView
    decreases trace.len(),
{
    if trace.len() == 0 {
        MinuteView::empty(minute_ts)
    } else {
        replayed(minute_ts, trace.drop_last()).recorded(trace.last())
    }
}

/// The durations of these events added up.
pub open spec fn total_ns(trace: Seq<Sample>) -> int
    decreases trace.len(),
{
    if trace.len() == 0 {
        0
    } else {
        total_ns(trace.drop_last()) + trace.last().duration_ns
    }
}

/// `ns` is the longest duration among these events, or zero if there are none.
pub open spec fn is_longest(trace: Seq<Sample>, ns: u64) -> bool {
    &&& forall|i: int| 0 <= i < trace.len() ==> (#[trigger] trace[i]).duration_ns <= ns
    &&& ns == 0 || exists|i: int| 0 <= i < trace.len() && (#[trigger] trace[i]).duration_ns == ns
}

/// `ns` is the shortest duration among these events, or the greatest number if there are none.
pub open spec fn is_shortest(trace: Seq<Sample>, ns: u64) -> bool {
    &&& forall|i: int| 0 <= i < trace.len() ==> ns <= (#[trigger] trace[i]).duration_ns
    &&& ns == u64::MAX || exists|i: int|
        0 <= i < trace.len() && (#[trigger] trace[i]).duration_ns == ns
}

/// The events of one severity.
pub open spec fn of_severity(trace: Seq<Sample>, sev: int) -> Seq<Sample> {
    trace.filter(|s: Sample| severity(s.duration_ns) == sev)
}

/// The events in one histogram bin.
pub open spec fn of_bin(trace: Seq<Sample>, bin: int) -> Seq<Sample> {
    trace.filter(|s: Sample| hist_bin(s.duration_ns) == bin)
}

/// The events that one task caused.
pub open spec fn of_aggressor(trace: Seq<Sample>, comm: Seq<char>) -> Seq<Sample> {
    trace.filter(|s: Sample| s.aggressor_comm == comm)
}

/// The events on one core.
pub open spec fn of_cpu(trace: Seq<Sample>, cpu_id: u32) -> Seq<Sample> {
    trace.filter(|s: Sample| s.cpu_id == cpu_id)
}

/// Each figure of the bucket is what it claims to be of these events.
pub open spec fn sums_up(v: MinuteView, trace: Seq<Sample>) -> bool {
    &&& v.count == trace.len()
    &&& v.sum_ns == total_ns(trace)
    &&& is_longest(trace, v.max_ns)
    &&& is_shortest(trace, v.min_ns)
    &&& v.sev.len() == SEVERITY_COUNT
    &&& forall|k: int|
        0 <= k < SEVERITY_COUNT ==> #[trigger] v.sev[k] == of_severity(trace, k).len()
    &&& v.histogram.len() == BIN_COUNT
    &&& forall|k: int| 0 <= k < BIN_COUNT ==> #[trigger] v.histogram[k] == of_bin(trace, k).len()
    &&& forall|c: Seq<char>| #[trigger]
        v.aggressors.contains_key(c) <==> of_aggressor(trace, c).len() > 0
    &&& forall|c: Seq<char>| #[trigger]
        v.aggressors.contains_key(c) ==> v.aggressors[c].0 == of_aggressor(trace, c).len()
            && v.aggressors[c].1 == total_ns(of_aggressor(trace, c))
    &&& forall|k: u32| #[trigger] v.cpus.contains_key(k) <==> of_cpu(trace, k).len() > 0
    &&& forall|k: u32| #[trigger]
        v.cpus.contains_key(k) ==> v.cpus[k].0 == of_cpu(trace, k).len() && is_longest(
            of_cpu(trace, k),
            v.cpus[k].1,
        )
}

/// The total grows with each event.
pub proof fn lemma_total_ns_push(trace: Seq<Sample>, s: Sample)
    ensures
        total_ns(trace.push(s)) == total_ns(trace) + s.duration_ns,
{
    assert(trace.push(s).drop_last() =~= trace);
}

/// A part of the events takes no longer in all than the whole.
pub proof fn lemma_total_ns_filter(trace: Seq<Sample>, keep: spec_fn(Sample) -> bool)
    ensures
        0 <= total_ns(trace.filter(keep)) <= total_ns(trace),
    decreases trace.len(),
{
    if trace.len() > 0 {
        lemma_total_ns_filter(trace.drop_last(), keep);
        let kept = trace.drop_last().filter(keep);
        trace.drop_last().lemma_filter_push(trace.last(), keep);
        assert(trace.drop_last().push(trace.last()) =~= trace);
        if keep(trace.last()) {
            lemma_total_ns_push(kept, trace.last());
        }
    } else {
        assert(trace.filter(keep) =~= trace);
    }
}

/// The longest of a sequence with one more event.
pub proof fn lemma_longest_push(trace: Seq<Sample>, ns: u64, s: Sample)
    requires
        is_longest(trace, ns),
    ensures
        is_longest(
            trace.push(s),
            if s.duration_ns > ns {
                s.duration_ns
            } else {
                ns
            },
        ),
{
    let after = trace.push(s);
    if s.duration_ns > ns {
        assert(after[trace.len() as int].duration_ns == s.duration_ns);
    } else if ns != 0 {
        let i = choose|i: int| 0 <= i < trace.len() && (#[trigger] trace[i]).duration_ns == ns;
        assert(after[i].duration_ns == ns);
    }
}

/// The shortest of a sequence with one more event.
pub proof fn lemma_shortest_push(trace: Seq<Sample>, ns: u64, s: Sample)
    requires
        is_shortest(trace, ns),
    ensures
        is_shortest(
            trace.push(s),
            if s.duration_ns < ns {
                s.duration_ns
            } else {
                ns
            },
        ),
{
    let after = trace.push(s);
    if s.duration_ns < ns {
        assert(after[trace.len() as int].duration_ns == s.duration_ns);
    } else if ns != u64::MAX {
        let i = choose|i: int| 0 <= i < trace.len() && (#[trigger] trace[i]).duration_ns == ns;
        assert(after[i].duration_ns == ns);
    }
}

/// A bucket sums up its events: after any events have been recorded in turn, the count, the total,
/// the extremes, the severities, the bins and the figures of each task and each core are those of
/// exactly these events.
pub proof fn law_bucket_sums_up_events(minute_ts: u64, trace: Seq<Sample>)
    requires
        trace.len() <= u32::MAX,
        total_ns(trace) <= u64::MAX,
    ensures
        sums_up(replayed(minute_ts, trace), trace),
        replayed(minute_ts, trace).minute_ts == minute_ts,
        replayed(minute_ts, trace).consistent(),
    decreases trace.len(),
{
    if trace.len() == 0 {
        lemma_empty_consistent(minute_ts);
        assert(forall|k: int| of_severity(trace, k).len() == 0);
        assert(forall|k: int| of_bin(trace, k).len() == 0);
        assert(forall|c: Seq<char>| of_aggressor(trace, c).len() == 0);
        assert(forall|k: u32| of_cpu(trace, k).len() == 0);
    } else {
        let front = trace.drop_last();
        let s = trace.last();
        let v = replayed(minute_ts, front);
        let w = replayed(minute_ts, trace);
        law_bucket_sums_up_events(minute_ts, front);
        assert(front.push(s) =~= trace);
        lemma_recorded_consistent(v, s);
        lemma_longest_push(front, v.max_ns, s);
        lemma_shortest_push(front, v.min_ns, s);
        lemma_first_bin_above(s.duration_ns as int, 0);
        let sev = severity(s.duration_ns);
        let bin = hist_bin(s.duration_ns);
        lemma_sum_bounds(v.sev, sev);
        lemma_sum_bounds(v.histogram, bin);
        assert forall|k: int| 0 <= k < SEVERITY_COUNT implies #[trigger] w.sev[k] == of_severity(
            trace,
            k,
        ).len() by {
            front.lemma_filter_push(s, |s: Sample| severity(s.duration_ns) == k);
            assert(v.sev[k] == of_severity(front, k).len());
        }
        assert forall|k: int| 0 <= k < BIN_COUNT implies #[trigger] w.histogram[k] == of_bin(
            trace,
            k,
        ).len() by {
            front.lemma_filter_push(s, |s: Sample| hist_bin(s.duration_ns) == k);
            assert(v.histogram[k] == of_bin(front, k).len());
        }
        assert forall|c: Seq<char>| #[trigger]
            w.aggressors.contains_key(c) <==> of_aggressor(trace, c).len() > 0 by {
            front.lemma_filter_push(s, |s: Sample| s.aggressor_comm == c);
            assert(v.aggressors.contains_key(c) <==> of_aggressor(front, c).len() > 0);
        }
        assert forall|c: Seq<char>| #[trigger] w.aggressors.contains_key(c) implies w.aggressors[c].0
            == of_aggressor(trace, c).len() && w.aggressors[c].1 == total_ns(
            of_aggressor(trace, c),
        ) by {
            front.lemma_filter_push(s, |s: Sample| s.aggressor_comm == c);
            lemma_total_ns_filter(front, |s: Sample| s.aggressor_comm == c);
            assert(v.aggressors.contains_key(c) <==> of_aggressor(front, c).len() > 0);
            if c == s.aggressor_comm {
                lemma_total_ns_push(of_aggressor(front, c), s);
            }
        }
        assert forall|k: u32| #[trigger] w.cpus.contains_key(k) <==> of_cpu(trace, k).len() > 0 by {
            front.lemma_filter_push(s, |s: Sample| s.cpu_id == k);
            assert(v.cpus.contains_key(k) <==> of_cpu(front, k).len() > 0);
        }
        assert forall|k: u32| #[trigger] w.cpus.contains_key(k) implies w.cpus[k].0 == of_cpu(
            trace,
            k,
        ).len() && is_longest(of_cpu(trace, k), w.cpus[k].1) by {
            front.lemma_filter_push(s, |s: Sample| s.cpu_id == k);
            assert(v.cpus.contains_key(k) <==> of_cpu(front, k).len() > 0);
            if k == s.cpu_id {
                lemma_longest_push(of_cpu(front, k), cpu_of(v.cpus, k).1, s);
            }
        }
    }
}

/// Nothing has been counted in this bucket of a minute.
pub open spec fn is_fresh(v: MinuteView, minute_ts: u64) -> bool {
    &&& v.minute_ts == minute_ts
    &&& v.count == 0
    &&& v.sum_ns == 0
    &&& v.max_ns == 0
    &&& v.min_ns == u64::MAX
    &&& v.sev.len() == 4
    &&& v.histogram.len() == 20
    &&& forall|k: int| 0 <= k < 4 ==> #[trigger] v.sev[k] == 0
    &&& forall|k: int| 0 <= k < 20 ==> #[trigger] v.histogram[k] == 0
    &&& forall|comm: Seq<char>| !(#[trigger] v.aggressors.contains_key(comm))
    &&& forall|cpu: u32| !(#[trigger] v.cpus.contains_key(cpu))
}

/// `after` is `before` with one more event: the totals grow by it, the extremes reach out to it, its
/// severity and its bin count one more, and so do its task and its core. All else stays.
pub open spec fn counts_one_more(
    before: MinuteView,
    after: MinuteView,
    duration_ns: u64,
    comm: Seq<char>,
    cpu_id: u32,
) -> bool {
    &&& after.minute_ts == before.minute_ts
    &&& after.count == before.count + 1
    &&& after.sum_ns == before.sum_ns + duration_ns
    &&& after.max_ns >= duration_ns && after.max_ns >= before.max_ns
    &&& after.max_ns == duration_ns || after.max_ns == before.max_ns
    &&& after.min_ns <= duration_ns && after.min_ns <= before.min_ns
    &&& after.min_ns == duration_ns || after.min_ns == before.min_ns
    &&& after.sev.len() == before.sev.len()
    &&& after.histogram.len() == before.histogram.len()
    &&& forall|k: int|
        0 <= k < 4 ==> #[trigger] after.sev[k] == before.sev[k] + if lies_in_severity(
            duration_ns,
            k,
        ) {
            1int
        } else {
            0
        }
    &&& forall|k: int|
        0 <= k < 20 ==> #[trigger] after.histogram[k] == before.histogram[k] + if lies_in_bin(
            duration_ns,
            k,
        ) {
            1int
        } else {
            0
        }
    &&& after.aggressors.contains_key(comm)
    &&& before.aggressors.contains_key(comm) ==> after.aggressors[comm].0
        == before.aggressors[comm].0 + 1 && after.aggressors[comm].1 == before.aggressors[comm].1
        + duration_ns
    &&& !before.aggressors.contains_key(comm) ==> after.aggressors[comm] == (1u32, duration_ns)
    &&& forall|other: Seq<char>|
        other != comm ==> (#[trigger] after.aggressors.contains_key(other)
            <==> before.aggressors.contains_key(other))
    &&& forall|other: Seq<char>|
        other != comm && before.aggressors.contains_key(other) ==> #[trigger] after.aggressors[other]
            == before.aggressors[other]
    &&& after.cpus.contains_key(cpu_id)
    &&& before.cpus.contains_key(cpu_id) ==> {
        &&& after.cpus[cpu_id].0 == before.cpus[cpu_id].0 + 1
        &&& after.cpus[cpu_id].1 >= duration_ns && after.cpus[cpu_id].1 >= before.cpus[cpu_id].1
        &&& after.cpus[cpu_id].1 == duration_ns || after.cpus[cpu_id].1 == before.cpus[cpu_id].1
    }
    &&& !before.cpus.contains_key(cpu_id) ==> after.cpus[cpu_id] == (1u32, duration_ns)
    &&& forall|other: u32|
        other != cpu_id ==> (#[trigger] after.cpus.contains_key(other) <==> before.cpus.contains_key(
            other,
        ))
    &&& forall|other: u32|
        other != cpu_id && before.cpus.contains_key(other) ==> #[trigger] after.cpus[other]
            == before.cpus[other]
}

/// Recording is counting one more event.
pub proof fn lemma_recorded_counts_one_more(v: MinuteView, s: Sample)
    requires
        v.consistent(),
        v.has_room(s.duration_ns),
    ensures
        counts_one_more(v, v.recorded(s), s.duration_ns, s.aggressor_comm, s.cpu_id),
{
    let w = v.recorded(s);
    let sev = severity(s.duration_ns);
    let bin = hist_bin(s.duration_ns);
    lemma_first_bin_above(s.duration_ns as int, 0);
    lemma_sum_bounds(v.sev, sev);
    lemma_sum_bounds(v.histogram, bin);
    assert forall|k: int| 0 <= k < 20 implies #[trigger] w.histogram[k] == v.histogram[k]
        + if lies_in_bin(s.duration_ns, k) {
        1int
    } else {
        0
    } by {
        lemma_bin_by_scale(s.duration_ns, k);
    }
}

/// The only fresh bucket of a minute is the empty one.
pub proof fn lemma_fresh_is_empty(v: MinuteView, minute_ts: u64)
    ensures
        is_fresh(v, minute_ts) <==> v == MinuteView::empty(minute_ts),
{
    let e = MinuteView::empty(minute_ts);
    if is_fresh(v, minute_ts) {
        assert(v.sev =~= e.sev);
        assert(v.histogram =~= e.histogram);
        assert(v.aggressors =~= e.aggressors);
        assert(v.cpus =~= e.cpus);
    }
}

/// A new bucket has counted nothing.
pub proof fn law_new_bucket_has_counted_nothing(minute_ts: u64, bucket: MinuteBucket)
    requires
        call_ensures(MinuteBucket::new, (minute_ts,), bucket),
    ensures
        bucket.wf(),
        is_fresh(bucket@, minute_ts),
{
    lemma_fresh_is_empty(bucket@, minute_ts);
}

/// Recording an event counts it once, in every figure. It is possible as long as the count and the
/// sum stay in range, which `has_room` tells.
pub proof fn law_recording_counts_one_more(
    bucket: &mut MinuteBucket,
    duration_ns: u64,
    comm: &str,
    cpu_id: u32,
    room: bool,
)
    requires
        old(bucket).wf(),
        call_ensures(MinuteBucket::has_room, (&*old(bucket), duration_ns), room),
        room ==> call_ensures(MinuteBucket::record, (bucket, duration_ns, comm, cpu_id), ()),
    ensures
        room <==> old(bucket)@.count < u32::MAX && old(bucket)@.sum_ns + duration_ns <= u64::MAX,
        room ==> call_requires(MinuteBucket::record, (bucket, duration_ns, comm, cpu_id)),
        room ==> final(bucket).wf(),
        room ==> counts_one_more(old(bucket)@, final(bucket)@, duration_ns, comm@, cpu_id),
{
    if room {
        lemma_recorded_counts_one_more(
            old(bucket)@,
            Sample { duration_ns, aggressor_comm: comm@, cpu_id },
        );
    }
}

/// A bucket tells each of its figures.
pub proof fn law_bucket_tells_its_figures(
    bucket: MinuteBucket,
    minute_ts: u64,
    count: u32,
    max_ns: u64,
    min_ns: u64,
    sum_ns: u64,
    sev: [u32; 4],
    histogram: [u32; 20],
)
    requires
        call_ensures(MinuteBucket::minute_ts, (&bucket,), minute_ts),
        call_ensures(MinuteBucket::count, (&bucket,), count),
        call_ensures(MinuteBucket::max_ns, (&bucket,), max_ns),
        call_ensures(MinuteBucket::min_ns, (&bucket,), min_ns),
        call_ensures(MinuteBucket::sum_ns, (&bucket,), sum_ns),
        call_ensures(MinuteBucket::sev, (&bucket,), &sev),
        call_ensures(MinuteBucket::histogram, (&bucket,), &histogram),
    ensures
        minute_ts == bucket@.minute_ts,
        count == bucket@.count,
        max_ns == bucket@.max_ns,
        min_ns == bucket@.min_ns,
        sum_ns == bucket@.sum_ns,
        sev@ == bucket@.sev,
        histogram@ == bucket@.histogram,
{
}

/// A bucket tells its tables.
pub proof fn law_bucket_tells_its_tables(
    bucket: MinuteBucket,
    aggressors: AggressorTable,
    cpus: HashMap<u32, (u32, u64)>,
)
    requires
        call_ensures(MinuteBucket::aggressors, (&bucket,), &aggressors),
        call_ensures(MinuteBucket::cpus, (&bucket,), &cpus),
    ensures
        aggressors.wf(),
        aggressors@ == bucket@.aggressors,
        cpus@ == bucket@.cpus,
{
}

} // verus!
