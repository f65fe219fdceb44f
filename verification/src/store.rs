//! The history of the last 24 hours: a bucket for each minute with events, and the longest events.

use std::collections::VecDeque;
use vstd::prelude::*;
use crate::bucket::{
    counts_one_more, is_fresh, lemma_empty_consistent, lemma_fresh_is_empty,
    lemma_recorded_counts_one_more, MinuteBucket, MinuteView, Sample,
};
use crate::event::{comm_text, comm_to_string, names, JitterEvent};
use crate::timeline::lemma_pruned;
use crate::worst::{
    capped, descending, inserted, lemma_place_unique, since, WorstEvent, WorstList, WorstView,
    WORST_EVENTS_CAP,
};

verus! {

/// Minutes in the history.
pub const MINUTES_24H: usize = 1440;

/// Length of the history in seconds.
pub const DAY_SECS: u64 = 86_400;

/// Length of the history in milliseconds.
pub const DAY_MS: u64 = 86_400_000;

/// The start, in seconds, of the minute that a wall-clock time lies in.
pub open spec fn minute_of(wall_time_ms: u64) -> u64 {
    (wall_time_ms / 60_000 * 60) as u64
}

/// The oldest minute kept once an event of this minute is recorded.
pub open spec fn bucket_cutoff(minute_ts: u64) -> u64 {
    if minute_ts < DAY_SECS {
        0
    } else {
        (minute_ts - DAY_SECS) as u64
    }
}

/// The oldest time that a ranked event may have once an event of this time is recorded.
pub open spec fn worst_cutoff(wall_time_ms: u64) -> u64 {
    if wall_time_ms < DAY_MS {
        0
    } else {
        (wall_time_ms - DAY_MS) as u64
    }
}

/// What a bucket is told of an event.
pub open spec fn sample_of(w: WorstView) -> Sample {
    Sample { duration_ns: w.duration_ns, aggressor_comm: w.aggressor_comm, cpu_id: w.cpu_id }
}

/// The buckets with the one of this minute at the back.
pub open spec fn opened(buckets: Seq<MinuteView>, minute_ts: u64) -> Seq<MinuteView> {
    if buckets.len() > 0 && buckets.last().minute_ts == minute_ts {
        buckets
    } else {
        buckets.push(MinuteView::empty(minute_ts))
    }
}

/// The buckets with an event counted in the one of its minute.
pub open spec fn counted(buckets: Seq<MinuteView>, w: WorstView) -> Seq<MinuteView> {
    let open = opened(buckets, minute_of(w.wall_time_ms));
    open.drop_last().push(open.last().recorded(sample_of(w)))
}

/// The buckets without those at the front that lie before the cutoff.
pub open spec fn pruned(buckets: Seq<MinuteView>, cutoff: u64) -> Seq<MinuteView>
    decreases buckets.len(),
{
    if buckets.len() > 0 && buckets[0].minute_ts < cutoff {
        pruned(buckets.drop_first(), cutoff)
    } else {
        buckets
    }
}

/// What the history holds.
pub struct StoreView {
    /// The minutes with events, in the order in which they were opened.
    pub buckets: Seq<MinuteView>,
    /// The longest events, longest first.
    pub worst: Seq<WorstView>,
}

impl StoreView {
    /// A history without events.
    pub open spec fn empty() -> StoreView {
        StoreView { buckets: Seq::empty(), worst: Seq::empty() }
    }

    /// The bucket that an event of this time goes to can count it.
    pub open spec fn has_room(self, duration_ns: u64, wall_time_ms: u64) -> bool {
        self.buckets.len() > 0 && self.buckets.last().minute_ts == minute_of(wall_time_ms)
            ==> self.buckets.last().has_room(duration_ns)
    }

    /// The history with one more event.
    pub open spec fn recorded(self, w: WorstView) -> StoreView {
        StoreView {
            buckets: pruned(
                counted(self.buckets, w),
                bucket_cutoff(minute_of(w.wall_time_ms)),
            ),
            worst: since(capped(inserted(self.worst, w)), worst_cutoff(w.wall_time_ms)),
        }
    }

    /// Every bucket is consistent and starts at a minute, and the longest events are ranked.
    pub open spec fn consistent(self) -> bool {
        &&& forall|i: int| 0 <= i < self.buckets.len() ==> (#[trigger] self.buckets[i]).consistent()
        &&& forall|i: int|
            0 <= i < self.buckets.len() ==> (#[trigger] self.buckets[i]).minute_ts * 1000
                <= u64::MAX && self.buckets[i].minute_ts % 60 == 0
        &&& descending(self.worst)
        &&& self.worst.len() <= WORST_EVENTS_CAP
    }
}

/// The event as the ranking shows it.
pub open spec fn worst_of(event: JitterEvent, wall_time_ms: u64) -> WorstView {
    WorstView {
        wall_time_ms,
        duration_ns: event.duration_ns,
        cpu_id: event.cpu_id,
        victim_pid: event.victim_pid,
        aggressor_pid: event.aggressor_pid,
        victim_comm: comm_text(event.victim_comm@),
        aggressor_comm: comm_text(event.aggressor_comm@),
    }
}

/// The 24-hour history.
pub struct History24hStore {
    buckets: VecDeque<MinuteBucket>,
    worst: WorstList,
}

impl View for History24hStore {
    type V = StoreView;

    closed spec fn view(&self) -> StoreView {
        StoreView {
            buckets: self.buckets@.map_values(|b: MinuteBucket| b@),
            worst: self.worst@,
        }
    }
}

impl History24hStore {
    /// Each bucket has its tables in order.
    pub closed spec fn buckets_wf(self) -> bool {
        forall|i: int| 0 <= i < self.buckets@.len() ==> (#[trigger] self.buckets@[i]).wf()
    }

    /// The tables are in order and the parts agree.
    pub open spec fn wf(self) -> bool {
        self.buckets_wf() && self@.consistent()
    }

    /// A history without events.
    pub fn new() -> (store: History24hStore)
        ensures
            store.wf(),
            store@ == StoreView::empty(),
    {
        let store = History24hStore {
            buckets: VecDeque::with_capacity(MINUTES_24H + 1),
            worst: WorstList::new(),
        };
        assert(store@.buckets =~= Seq::<MinuteView>::empty());
        store
    }

    /// The buckets, in the order in which they were opened.
    pub fn buckets(&self) -> (buckets: &VecDeque<MinuteBucket>)
        requires
            self.wf(),
        ensures
            buckets@.len() == self@.buckets.len(),
            forall|i: int|
                0 <= i < buckets@.len() ==> (#[trigger] buckets@[i]).wf() && buckets@[i]@
                    == self@.buckets[i],
    {
        &self.buckets
    }

    /// The longest events, longest first.
    pub fn worst(&self) -> (worst: &Vec<WorstEvent>)
        ensures
            worst@.len() == self@.worst.len(),
            forall|i: int| 0 <= i < worst@.len() ==> (#[trigger] worst@[i])@ == self@.worst[i],
    {
        self.worst.events()
    }

    /// Whether an event can be recorded without a figure going out of range.
    pub fn has_room(&self, duration_ns: u64, wall_time_ms: u64) -> (room: bool)
        ensures
            room == self@.has_room(duration_ns, wall_time_ms),
    {
        let n: usize = self.buckets.len();
        if n == 0 {
            return true;
        }
        assert(self@.buckets.last() == self.buckets@[n - 1]@);
        self.buckets[n - 1].minute_ts() != wall_time_ms / 60_000 * 60 || self.buckets[n
            - 1].has_room(duration_ns)
    }

    /// Counts an event in the bucket of its minute, which is opened if it is not the latest.
    fn count_event(&mut self, w: &WorstEvent)
        requires
            old(self).wf(),
            old(self)@.has_room(w.duration_ns, w.wall_time_ms),
        ensures
            final(self).wf(),
            final(self)@.buckets == counted(old(self)@.buckets, w@),
            final(self)@.worst == old(self)@.worst,
    {
        let ghost before = self@.buckets;
        let minute_ts: u64 = w.wall_time_ms / 60_000 * 60;
        let n: usize = self.buckets.len();
        if n == 0 || self.buckets[n - 1].minute_ts() != minute_ts {
            self.buckets.push_back(MinuteBucket::new(minute_ts));
        }
        assert(self@.buckets =~= opened(before, minute_ts));
        let ghost open = self@.buckets;
        assert(forall|i: int| 0 <= i < open.len() ==> open[i] == (#[trigger] self.buckets@[i])@);
        if let Some(mut bucket) = self.buckets.pop_back() {
            bucket.record(w.duration_ns, w.aggressor_comm.as_str(), w.cpu_id);
            self.buckets.push_back(bucket);
            assert(self@.buckets =~= counted(before, w@));
        }
    }

    /// Drops the buckets at the front that lie before the cutoff.
    fn prune(&mut self, cutoff: u64)
        requires
            old(self).wf(),
        ensures
            final(self).wf(),
            final(self)@.buckets == pruned(old(self)@.buckets, cutoff),
            final(self)@.worst == old(self)@.worst,
    {
        while self.buckets.len() > 0 && self.buckets[0].minute_ts() < cutoff
            invariant
                self.wf(),
                pruned(self@.buckets, cutoff) == pruned(old(self)@.buckets, cutoff),
                self@.worst == old(self)@.worst,
            decreases self.buckets@.len(),
        {
            let ghost before = self@.buckets;
            let ghost raw = self.buckets@;
            let _ = self.buckets.pop_front();
            assert(self@.buckets =~= before.drop_first());
            assert(forall|i: int|
                0 <= i < self.buckets@.len() ==> #[trigger] self.buckets@[i] == raw[i + 1]);
        }
        proof {
            if self.buckets@.len() > 0 {
                assert(self@.buckets[0] == self.buckets@[0]@);
            }
        }
    }

    /// Takes up an event with its task names as text.
    pub fn record_event(&mut self, w: WorstEvent)
        requires
            old(self).wf(),
            old(self)@.has_room(w.duration_ns, w.wall_time_ms),
        ensures
            final(self).wf(),
            final(self)@ == old(self)@.recorded(w@),
    {
        let wall_time_ms: u64 = w.wall_time_ms;
        self.count_event(&w);
        self.prune((wall_time_ms / 60_000 * 60).saturating_sub(DAY_SECS));
        self.worst.rank(w);
        self.worst.expire(wall_time_ms.saturating_sub(DAY_MS));
    }

    /// Takes up an event that was read at this wall-clock time.
    pub fn record(&mut self, event: &JitterEvent, wall_time_ms: u64)
        requires
            old(self).wf(),
            old(self)@.has_room(event.duration_ns, wall_time_ms),
        ensures
            final(self).wf(),
            final(self)@ == old(self)@.recorded(worst_of(*event, wall_time_ms)),
            names(worst_of(*event, wall_time_ms).victim_comm, event.victim_comm@),
            names(worst_of(*event, wall_time_ms).aggressor_comm, event.aggressor_comm@),
    {
        self.record_event(
            WorstEvent {
                wall_time_ms,
                duration_ns: event.duration_ns,
                cpu_id: event.cpu_id,
                victim_pid: event.victim_pid,
                aggressor_pid: event.aggressor_pid,
                victim_comm: comm_to_string(&event.victim_comm),
                aggressor_comm: comm_to_string(&event.aggressor_comm),
            },
        );
    }
}

/// The minute of a time is the one that it lies in: it starts at a multiple of 60 seconds, and the
/// time comes less than 60 seconds later.
pub proof fn law_time_lies_in_its_minute(wall_time_ms: u64)
    ensures
        minute_of(wall_time_ms) % 60 == 0,
        minute_of(wall_time_ms) * 1000 <= wall_time_ms < minute_of(wall_time_ms) * 1000 + 60_000,
{
}

/// A minute is told from the others by the times that lie in it.
pub proof fn lemma_minute_by_its_times(wall_time_ms: u64, minute_ts: u64)
    requires
        minute_ts % 60 == 0,
    ensures
        minute_of(wall_time_ms) == minute_ts <==> minute_ts * 1000 <= wall_time_ms < minute_ts
            * 1000 + 60_000,
{
}

/// The history reaches back 24 hours, or to the beginning of time.
pub proof fn law_history_reaches_back_a_day(minute_ts: u64, wall_time_ms: u64)
    ensures
        minute_ts >= 86_400 ==> bucket_cutoff(minute_ts) + 24 * 60 * 60 == minute_ts,
        minute_ts < 86_400 ==> bucket_cutoff(minute_ts) == 0,
        wall_time_ms >= 86_400_000 ==> worst_cutoff(wall_time_ms) + 24 * 60 * 60 * 1000
            == wall_time_ms,
        wall_time_ms < 86_400_000 ==> worst_cutoff(wall_time_ms) == 0,
        MINUTES_24H == 24 * 60,
{
}

/// A bucket is told the duration, the aggressor and the core of an event.
pub proof fn law_bucket_is_told_of_the_event(w: WorstView)
    ensures
        sample_of(w).duration_ns == w.duration_ns,
        sample_of(w).aggressor_comm == w.aggressor_comm,
        sample_of(w).cpu_id == w.cpu_id,
{
}

/// A new history holds nothing.
pub proof fn law_new_history_holds_nothing(store: History24hStore)
    requires
        call_ensures(History24hStore::new, (), store),
    ensures
        store.wf(),
        store@.buckets.len() == 0,
        store@.worst.len() == 0,
{
}

/// An event can be recorded unless the latest bucket is that of its minute and would overflow.
pub proof fn law_there_is_room_unless_the_minute_overflows(
    store: &mut History24hStore,
    w: WorstEvent,
    room: bool,
)
    requires
        old(store).wf(),
        call_ensures(
            History24hStore::has_room,
            (&*old(store), w.duration_ns, w.wall_time_ms),
            room,
        ),
    ensures
        room <==> ({
            let last = old(store)@.buckets.last();
            ||| old(store)@.buckets.len() == 0
            ||| w.wall_time_ms < last.minute_ts * 1000
            ||| w.wall_time_ms >= last.minute_ts * 1000 + 60_000
            ||| last.count < u32::MAX && last.sum_ns + w.duration_ns <= u64::MAX
        }),
        room ==> call_requires(History24hStore::record_event, (store, w)),
{
    let buckets = old(store)@.buckets;
    if buckets.len() > 0 {
        assert(buckets[buckets.len() - 1].minute_ts % 60 == 0);
        lemma_minute_by_its_times(w.wall_time_ms, buckets.last().minute_ts);
    }
}

/// A raw event can be recorded in the same cases as one with its names as text.
pub proof fn law_raw_event_needs_the_same_room(
    store: &mut History24hStore,
    event: JitterEvent,
    wall_time_ms: u64,
    room: bool,
)
    requires
        old(store).wf(),
        call_ensures(
            History24hStore::has_room,
            (&*old(store), event.duration_ns, wall_time_ms),
            room,
        ),
        room,
    ensures
        call_requires(History24hStore::record, (store, &event, wall_time_ms)),
{
}

/// An event is counted in the bucket of its own minute, which comes last: the latest bucket if it is
/// of that minute, a fresh one otherwise. The other buckets stay as they are, but for those at the
/// front that lie more than 24 hours before that minute, which go.
pub proof fn law_event_is_counted_in_its_minute(
    store: &mut History24hStore,
    w: WorstEvent,
    before: Seq<MinuteView>,
    after: Seq<MinuteView>,
    others: Seq<MinuteView>,
    start: MinuteView,
)
    requires
        old(store).wf(),
        call_ensures(History24hStore::record_event, (store, w), ()),
        before == old(store)@.buckets,
        before.len() == 0 || w.wall_time_ms < before.last().minute_ts * 1000 || w.wall_time_ms
            >= before.last().minute_ts * 1000 + 60_000 || (before.last().count < u32::MAX
            && before.last().sum_ns + w.duration_ns <= u64::MAX),
        after == final(store)@.buckets,
        before.len() > 0 && before.last().minute_ts == after.last().minute_ts ==> others
            == before.drop_last() && start == before.last(),
        before.len() == 0 || before.last().minute_ts != after.last().minute_ts ==> others == before
            && is_fresh(start, after.last().minute_ts),
    ensures
        final(store).wf(),
        after.len() > 0,
        after.last().minute_ts % 60 == 0,
        after.last().minute_ts * 1000 <= w.wall_time_ms < after.last().minute_ts * 1000 + 60_000,
        counts_one_more(start, after.last(), w.duration_ns, w.aggressor_comm@, w.cpu_id),
        after.len() <= others.len() + 1,
        after.drop_last() == others.skip(others.len() + 1 - after.len()),
        forall|i: int|
            0 <= i < others.len() + 1 - after.len() ==> (#[trigger] others[i]).minute_ts + 86_400
                < after.last().minute_ts,
        after.len() > 1 ==> after[0].minute_ts + 86_400 >= after.last().minute_ts,
{
    let m = minute_of(w.wall_time_ms);
    let open = opened(before, m);
    let now = counted(before, w@);
    let n = lemma_pruned(now, bucket_cutoff(m));
    lemma_empty_consistent(m);
    assert(open.last().consistent() && open.last().has_room(w.duration_ns)) by {
        if before.len() > 0 {
            assert(before[before.len() - 1].consistent());
            assert(before[before.len() - 1].minute_ts % 60 == 0);
            lemma_minute_by_its_times(w.wall_time_ms, before.last().minute_ts);
        }
    }
    lemma_recorded_counts_one_more(open.last(), sample_of(w@));
    assert(now[now.len() - 1].minute_ts == m);
    assert(n < now.len());
    assert(after == now.skip(n));
    assert(after.last() == now.last());
    lemma_fresh_is_empty(start, m);
    assert(open.drop_last() =~= others);
    assert(start == open.last());
    assert(now.drop_last() =~= others);
    assert(after.drop_last() =~= others.skip(n));
    assert forall|i: int| 0 <= i < n implies (#[trigger] others[i]).minute_ts + 86_400 < m by {
        assert(now[i] == others[i]);
    }
    if after.len() > 1 {
        assert(after[0] == now[n]);
    }
}

/// An event is ranked by its duration among those at hand, behind the last that is at least as long;
/// the fifty longest stay, and of those the ones that are no older than 24 hours.
pub proof fn law_event_is_ranked_among_the_longest(
    store: &mut History24hStore,
    w: WorstEvent,
    p: int,
    ranked: Seq<WorstView>,
)
    requires
        old(store).wf(),
        call_ensures(History24hStore::record_event, (store, w), ()),
        0 <= p <= old(store)@.worst.len(),
        forall|i: int|
            0 <= i < p ==> (#[trigger] old(store)@.worst[i]).duration_ns >= w.duration_ns,
        forall|i: int|
            p <= i < old(store)@.worst.len() ==> (#[trigger] old(store)@.worst[i]).duration_ns
                < w.duration_ns,
        ranked == old(store)@.worst.insert(
            p,
            (WorstView {
                wall_time_ms: w.wall_time_ms,
                duration_ns: w.duration_ns,
                cpu_id: w.cpu_id,
                victim_pid: w.victim_pid,
                aggressor_pid: w.aggressor_pid,
                victim_comm: w.victim_comm@,
                aggressor_comm: w.aggressor_comm@,
            }),
        ),
    ensures
        ranked.len() <= 50 ==> final(store)@.worst == ranked.filter(
            |x: WorstView| x.wall_time_ms + 86_400_000 >= w.wall_time_ms,
        ),
        ranked.len() > 50 ==> final(store)@.worst == ranked.take(50).filter(
            |x: WorstView| x.wall_time_ms + 86_400_000 >= w.wall_time_ms,
        ),
{
    lemma_place_unique(old(store)@.worst, w.duration_ns, p);
    assert(ranked == inserted(old(store)@.worst, w@));
    let cutoff = worst_cutoff(w.wall_time_ms);
    assert((|x: WorstView| x.wall_time_ms >= cutoff) =~= (|x: WorstView|
        x.wall_time_ms + 86_400_000 >= w.wall_time_ms));
}

/// Recording a raw event is recording it under its two names as text.
pub proof fn law_raw_event_is_recorded_under_its_names(
    store: &mut History24hStore,
    other: &mut History24hStore,
    event: JitterEvent,
    wall_time_ms: u64,
    w: WorstEvent,
)
    requires
        call_ensures(History24hStore::record, (store, &event, wall_time_ms), ()),
        call_ensures(History24hStore::record_event, (other, w), ()),
        old(store)@ == old(other)@,
        w.wall_time_ms == wall_time_ms,
        w.duration_ns == event.duration_ns,
        w.cpu_id == event.cpu_id,
        w.victim_pid == event.victim_pid,
        w.aggressor_pid == event.aggressor_pid,
        call_ensures(comm_to_string, (&event.victim_comm,), w.victim_comm),
        call_ensures(comm_to_string, (&event.aggressor_comm,), w.aggressor_comm),
    ensures
        final(store)@ == final(other)@,
{
}

/// A history hands out its buckets and its ranking as they are.
pub proof fn law_history_hands_out_what_it_holds(
    store: History24hStore,
    buckets: VecDeque<MinuteBucket>,
    worst: Vec<WorstEvent>,
)
    requires
        call_ensures(History24hStore::buckets, (&store,), &buckets),
        call_ensures(History24hStore::worst, (&store,), &worst),
    ensures
        buckets@.len() == store@.buckets.len(),
        worst@.len() == store@.worst.len(),
        forall|i: int|
            0 <= i < buckets@.len() ==> (#[trigger] buckets@[i])@ == store@.buckets[i],
        forall|i: int| 0 <= i < worst@.len() ==> (#[trigger] worst@[i])@ == store@.worst[i],
{
}

} // verus!
