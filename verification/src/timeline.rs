//! What the 24-hour history holds after a run of events.

use vstd::prelude::*;
use crate::aggressor::tally_of;
use crate::bucket::{
    is_longest, law_bucket_sums_up_events, lemma_empty_consistent, lemma_recorded_consistent,
    lemma_total_ns_push, of_aggressor, of_bin, of_severity, replayed, sums_up, total_ns, MinuteView,
    Sample,
};
use crate::histogram::{
    hist_bin, lemma_first_bin_above, lemma_sum_bounds, severity, BIN_COUNT, SEVERITY_COUNT,
};
use crate::report::{
    bin_total, comm_count, comm_ns, events_total, law_maximum_covers_every_minute,
    law_report_shows_each_minute, lemma_total_push, longest, sev_total, total_of, History24hJson,
    HistoryTotals,
};
use crate::store::{
    bucket_cutoff, counted, lemma_minute_by_its_times, minute_of, opened, pruned, sample_of,
    worst_cutoff, History24hStore, StoreView, MINUTES_24H,
};
use crate::worst::{
    capped, descending, inserted, lemma_filter_descending, lemma_inserted_descending, lemma_place,
    place, ranked_all, ranking, since, WorstEvent, WorstView, WORST_EVENTS_CAP,
};

verus! {

/// The history after these events have been recorded in turn.
pub open spec fn history_of(trace: Seq<WorstView>) -> StoreView
    decreases trace.len(),
{
    if trace.len() == 0 {
        StoreView::empty()
    } else {
        history_of(trace.drop_last()).recorded(trace.last())
    }
}

/// The clock did not go back between the events.
pub open spec fn chronological(trace: Seq<WorstView>) -> bool {
    forall|i: int, j: int|
        0 <= i <= j < trace.len() ==> (#[trigger] trace[i]).wall_time_ms <= (
        #[trigger] trace[j]).wall_time_ms
}

/// The events of one minute.
pub open spec fn in_minute(trace: Seq<WorstView>, minute_ts: u64) -> Seq<WorstView> {
    trace.filter(|w: WorstView| minute_of(w.wall_time_ms) == minute_ts)
}

/// What the buckets are told of these events.
pub open spec fn samples(events: Seq<WorstView>) -> Seq<Sample> {
    events.map_values(|w: WorstView| sample_of(w))
}

/// The minutes of the buckets ascend.
pub open spec fn ascending(buckets: Seq<MinuteView>) -> bool {
    forall|i: int, j: int|
        0 <= i < j < buckets.len() ==> (#[trigger] buckets[i]).minute_ts < (
        #[trigger] buckets[j]).minute_ts
}

/// There is a bucket for this minute.
pub open spec fn has_minute(buckets: Seq<MinuteView>, minute_ts: u64) -> bool {
    exists|i: int| 0 <= i < buckets.len() && (#[trigger] buckets[i]).minute_ts == minute_ts
}

/// The buckets are the minutes of the last 24 hours: each sums up the events of its minute, of which
/// there is at least one, none lies further back than 24 hours before the latest, and no event since
/// is missing.
pub open spec fn covers_day(buckets: Seq<MinuteView>, trace: Seq<WorstView>) -> bool {
    let latest = minute_of(trace.last().wall_time_ms);
    &&& ascending(buckets)
    &&& buckets.len() > 0
    &&& buckets.last().minute_ts == latest
    &&& forall|i: int|
        0 <= i < buckets.len() ==> bucket_cutoff(latest) <= (#[trigger] buckets[i]).minute_ts
    &&& forall|i: int|
        0 <= i < buckets.len() ==> (#[trigger] buckets[i]) == replayed(
            buckets[i].minute_ts,
            samples(in_minute(trace, buckets[i].minute_ts)),
        )
    &&& forall|i: int|
        0 <= i < buckets.len() ==> in_minute(trace, (#[trigger] buckets[i]).minute_ts).len() > 0
    &&& forall|k: int|
        0 <= k < trace.len() && bucket_cutoff(latest) <= minute_of(
            (#[trigger] trace[k]).wall_time_ms,
        ) ==> has_minute(buckets, minute_of(trace[k].wall_time_ms))
}

/// Later times lie in later minutes.
pub proof fn lemma_minute_monotone(a: u64, b: u64)
    requires
        a <= b,
    ensures
        minute_of(a) <= minute_of(b),
        bucket_cutoff(minute_of(a)) <= bucket_cutoff(minute_of(b)),
        minute_of(b) % 60 == 0,
{
}

/// Pruning drops a front part: what lies before the cutoff, up to the first that does not.
pub proof fn lemma_pruned(buckets: Seq<MinuteView>, cutoff: u64) -> (dropped: int)
    ensures
        0 <= dropped <= buckets.len(),
        pruned(buckets, cutoff) == buckets.skip(dropped),
        forall|i: int| 0 <= i < dropped ==> (#[trigger] buckets[i]).minute_ts < cutoff,
        dropped < buckets.len() ==> cutoff <= buckets[dropped].minute_ts,
    decreases buckets.len(),
{
    if buckets.len() > 0 && buckets[0].minute_ts < cutoff {
        let rest = buckets.drop_first();
        let n = lemma_pruned(rest, cutoff);
        assert(rest.skip(n) =~= buckets.skip(n + 1));
        assert forall|i: int| 0 <= i < n + 1 implies (#[trigger] buckets[i]).minute_ts < cutoff by {
            if i > 0 {
                assert(buckets[i] == rest[i - 1]);
            }
        }
        n + 1
    } else {
        assert(buckets.skip(0) =~= buckets);
        0
    }
}

/// Leaving out every event leaves none.
proof fn lemma_in_minute_none(trace: Seq<WorstView>, minute_ts: u64)
    requires
        forall|k: int|
            0 <= k < trace.len() ==> minute_of((#[trigger] trace[k]).wall_time_ms) != minute_ts,
    ensures
        in_minute(trace, minute_ts) == Seq::<WorstView>::empty(),
    decreases trace.len(),
{
    reveal(Seq::filter);
    if trace.len() > 0 {
        lemma_in_minute_none(trace.drop_last(), minute_ts);
    }
}

/// One more event in its minute is one more sample in its bucket.
proof fn lemma_replay_step(trace: Seq<WorstView>, w: WorstView)
    ensures
        replayed(
            minute_of(w.wall_time_ms),
            samples(in_minute(trace.push(w), minute_of(w.wall_time_ms))),
        ) == replayed(
            minute_of(w.wall_time_ms),
            samples(in_minute(trace, minute_of(w.wall_time_ms))),
        ).recorded(sample_of(w)),
        forall|m: u64|
            m != minute_of(w.wall_time_ms) ==> #[trigger] in_minute(trace.push(w), m) == in_minute(
                trace,
                m,
            ),
        in_minute(trace.push(w), minute_of(w.wall_time_ms)).len() > 0,
{
    let m = minute_of(w.wall_time_ms);
    trace.lemma_filter_push(w, |w: WorstView| minute_of(w.wall_time_ms) == m);
    let before = samples(in_minute(trace, m));
    let after = samples(in_minute(trace.push(w), m));
    assert(after =~= before.push(sample_of(w)));
    assert(after.drop_last() =~= before);
    assert forall|other: u64| other != m implies #[trigger] in_minute(trace.push(w), other)
        == in_minute(trace, other) by {
        trace.lemma_filter_push(w, |w: WorstView| minute_of(w.wall_time_ms) == other);
    }
}

/// The history is the record of the last 24 hours: while the clock does not go back, its buckets
/// are the minutes since 24 hours before the latest event in which there were events, and each
/// sums up exactly the events of its minute.
pub proof fn law_history_covers_the_day(trace: Seq<WorstView>)
    requires
        trace.len() > 0,
        chronological(trace),
    ensures
        covers_day(history_of(trace).buckets, trace),
    decreases trace.len(),
{
    let front = trace.drop_last();
    let w = trace.last();
    assert(front.push(w) =~= trace);
    let minute = minute_of(w.wall_time_ms);
    let cutoff = bucket_cutoff(minute);
    let before = history_of(front).buckets;
    let open = opened(before, minute);
    let now = counted(before, w);
    let after = history_of(trace).buckets;
    lemma_replay_step(front, w);
    assert forall|k: int| 0 <= k < front.len() implies minute_of(
        (#[trigger] front[k]).wall_time_ms,
    ) <= minute by {
        assert(trace[k] == front[k]);
        lemma_minute_monotone(trace[k].wall_time_ms, trace[trace.len() - 1].wall_time_ms);
    }
    if front.len() > 0 {
        assert forall|i: int, j: int| 0 <= i <= j < front.len() implies (
        #[trigger] front[i]).wall_time_ms <= (#[trigger] front[j]).wall_time_ms by {
            assert(trace[i] == front[i] && trace[j] == front[j]);
        }
        law_history_covers_the_day(front);
        assert(front.last() == front[front.len() - 1]);
        lemma_minute_monotone(front.last().wall_time_ms, w.wall_time_ms);
    }
    let same = before.len() > 0 && before.last().minute_ts == minute;
    if !same {
        assert forall|k: int| 0 <= k < front.len() implies minute_of(
            (#[trigger] front[k]).wall_time_ms,
        ) != minute by {
            assert(chronological(trace));
            assert(trace[k] == front[k] && trace[front.len() - 1] == front.last());
            lemma_minute_monotone(front[k].wall_time_ms, front.last().wall_time_ms);
        }
        lemma_in_minute_none(front, minute);
        assert(samples(in_minute(front, minute)) =~= Seq::<Sample>::empty());
    }
    assert(now.len() == open.len());
    assert(now.last() == replayed(minute, samples(in_minute(trace, minute))));
    assert forall|i: int| 0 <= i < now.len() - 1 implies #[trigger] now[i] == before[i]
        && before[i].minute_ts < minute by {
        if same {
            assert(before[i].minute_ts < before[before.len() - 1].minute_ts);
        } else {
            assert(before[i].minute_ts <= before[before.len() - 1].minute_ts);
        }
    }
    assert(ascending(now));
    assert forall|i: int| 0 <= i < now.len() implies #[trigger] now[i] == replayed(
        now[i].minute_ts,
        samples(in_minute(trace, now[i].minute_ts)),
    ) by {
        if i < now.len() - 1 {
            assert(now[i] == before[i]);
        } else {
            lemma_replayed_minute(minute, samples(in_minute(trace, minute)));
        }
    }
    lemma_replayed_minute(minute, samples(in_minute(trace, minute)));
    assert forall|i: int| 0 <= i < now.len() implies in_minute(
        trace,
        (#[trigger] now[i]).minute_ts,
    ).len() > 0 by {
        if i < now.len() - 1 {
            assert(now[i] == before[i]);
        }
    }
    let n = lemma_pruned(now, cutoff);
    assert(now[now.len() - 1].minute_ts == minute);
    assert(n < now.len());
    assert(forall|i: int| 0 <= i < after.len() ==> #[trigger] after[i] == now[i + n]);
    assert forall|i: int| 0 <= i < after.len() implies cutoff <= (
    #[trigger] after[i]).minute_ts by {
        assert(after[i] == now[i + n]);
        if i > 0 {
            assert(now[n].minute_ts < now[i + n].minute_ts);
        }
    }
    assert forall|k: int|
        0 <= k < trace.len() && cutoff <= minute_of(
            (#[trigger] trace[k]).wall_time_ms,
        ) implies has_minute(after, minute_of(trace[k].wall_time_ms)) by {
        let m = minute_of(trace[k].wall_time_ms);
        if k == trace.len() - 1 {
            assert(after[after.len() - 1].minute_ts == m);
        } else {
            assert(trace[k] == front[k]);
            assert(has_minute(before, m));
            let i = choose|i: int| 0 <= i < before.len() && (#[trigger] before[i]).minute_ts == m;
            if i < now.len() - 1 {
                assert(now[i] == before[i]);
            }
            assert(now[i].minute_ts == m);
            assert(after[i - n].minute_ts == m);
        }
    }
    assert(ascending(after)) by {
        assert forall|i: int, j: int| 0 <= i < j < after.len() implies (
        #[trigger] after[i]).minute_ts < (#[trigger] after[j]).minute_ts by {
            assert(after[i] == now[i + n] && after[j] == now[j + n]);
        }
    }
}

/// Recording leaves the minute of a bucket as it is.
proof fn lemma_replayed_minute(minute_ts: u64, trace: Seq<Sample>)
    ensures
        replayed(minute_ts, trace).minute_ts == minute_ts,
    decreases trace.len(),
{
    if trace.len() > 0 {
        lemma_replayed_minute(minute_ts, trace.drop_last());
    }
}

/// While the clock does not go back, the history never holds more buckets than a day has minutes,
/// and one.
pub proof fn law_history_is_bounded(trace: Seq<WorstView>)
    requires
        trace.len() > 0,
        chronological(trace),
    ensures
        history_of(trace).buckets.len() <= MINUTES_24H + 1,
{
    law_history_covers_the_day(trace);
    let buckets = history_of(trace).buckets;
    lemma_history_minutes(trace);
    lemma_ascending_gap(buckets, buckets.len() - 1);
    assert(buckets[0].minute_ts >= bucket_cutoff(buckets.last().minute_ts));
}

/// Every bucket starts at a minute.
proof fn lemma_history_minutes(trace: Seq<WorstView>)
    ensures
        forall|i: int|
            0 <= i < history_of(trace).buckets.len() ==> (
            #[trigger] history_of(trace).buckets[i]).minute_ts % 60 == 0,
    decreases trace.len(),
{
    if trace.len() > 0 {
        let w = trace.last();
        lemma_history_minutes(trace.drop_last());
        let before = history_of(trace.drop_last()).buckets;
        let now = counted(before, w);
        let n = lemma_pruned(now, bucket_cutoff(minute_of(w.wall_time_ms)));
        assert forall|i: int| 0 <= i < history_of(trace).buckets.len() implies (
        #[trigger] history_of(trace).buckets[i]).minute_ts % 60 == 0 by {
            assert(history_of(trace).buckets[i] == now[i + n]);
            if i + n < now.len() - 1 {
                assert(now[i + n] == before[i + n]);
            }
        }
    }
}

/// Ascending minutes lie at least a minute apart.
proof fn lemma_ascending_gap(buckets: Seq<MinuteView>, n: int)
    requires
        ascending(buckets),
        0 <= n < buckets.len(),
        forall|i: int| 0 <= i < buckets.len() ==> (#[trigger] buckets[i]).minute_ts % 60 == 0,
    ensures
        buckets[0].minute_ts + 60 * n <= buckets[n].minute_ts,
    decreases n,
{
    if n > 0 {
        lemma_ascending_gap(buckets, n - 1);
        assert(buckets[n - 1].minute_ts < buckets[n].minute_ts);
        assert(buckets[n - 1].minute_ts % 60 == 0 && buckets[n].minute_ts % 60 == 0);
    }
}

/// The ranking holds events that were recorded, longest first, no more than it keeps, and none that
/// is older than 24 hours at the time of the latest, even if the clock went back in between.
pub proof fn law_worst_events_are_recent(trace: Seq<WorstView>)
    requires
        trace.len() > 0,
    ensures
        descending(history_of(trace).worst),
        history_of(trace).worst.len() <= WORST_EVENTS_CAP,
        forall|i: int|
            0 <= i < history_of(trace).worst.len() ==> trace.contains(
                #[trigger] history_of(trace).worst[i],
            ) && history_of(trace).worst[i].wall_time_ms >= worst_cutoff(
                trace.last().wall_time_ms,
            ),
    decreases trace.len(),
{
    let front = trace.drop_last();
    let w = trace.last();
    if front.len() > 0 {
        law_worst_events_are_recent(front);
    }
    let before = history_of(front).worst;
    let cutoff = worst_cutoff(w.wall_time_ms);
    let keep = |w: WorstView| w.wall_time_ms >= cutoff;
    lemma_inserted_descending(before, w);
    lemma_place(before, w.duration_ns);
    let top = capped(inserted(before, w));
    assert forall|i: int| 0 <= i < top.len() implies trace.contains(#[trigger] top[i]) by {
        let p = place(before, w.duration_ns);
        if i == p {
            assert(trace[trace.len() - 1] == w);
        } else {
            let k = if i < p { i } else { i - 1 };
            assert(top[i] == before[k]);
            assert(front.contains(before[k]));
            let t = choose|t: int| 0 <= t < front.len() && front[t] == before[k];
            assert(trace[t] == before[k]);
        }
    }
    lemma_filter_descending(top, keep);
    let after = history_of(trace).worst;
    assert forall|i: int| 0 <= i < after.len() implies trace.contains(#[trigger] after[i])
        && after[i].wall_time_ms >= cutoff by {
        assert(top.contains(after[i]));
        let t = choose|t: int| 0 <= t < top.len() && top[t] == after[i];
        assert(trace.contains(top[t]));
        assert(keep(after[i]));
    }
}

/// Keeping everything changes nothing.
proof fn lemma_since_all(events: Seq<WorstView>, cutoff_ms: u64)
    requires
        forall|i: int| 0 <= i < events.len() ==> (#[trigger] events[i]).wall_time_ms >= cutoff_ms,
    ensures
        since(events, cutoff_ms) == events,
    decreases events.len(),
{
    reveal(Seq::filter);
    if events.len() > 0 {
        lemma_since_all(events.drop_last(), cutoff_ms);
        assert(events.drop_last().push(events.last()) =~= events);
    }
}

/// No event is older than 24 hours when another is recorded, in whatever order the clock has them.
pub open spec fn within_a_day(trace: Seq<WorstView>) -> bool {
    forall|i: int, j: int|
        0 <= i <= j < trace.len() ==> (#[trigger] trace[i]).wall_time_ms >= worst_cutoff(
            (#[trigger] trace[j]).wall_time_ms,
        )
}

/// While no event is older than 24 hours when another is recorded, the history ranks the longest
/// of all recorded events.
pub proof fn law_worst_events_are_the_longest(trace: Seq<WorstView>)
    requires
        within_a_day(trace),
    ensures
        history_of(trace).worst == capped(ranking(trace)),
{
    crate::worst::law_ranked_are_the_longest(trace);
    lemma_worst_without_expiry(trace);
}

/// While nothing expires, recording does to the ranking what ranking alone does.
proof fn lemma_worst_without_expiry(trace: Seq<WorstView>)
    requires
        within_a_day(trace),
    ensures
        history_of(trace).worst == ranked_all(trace),
    decreases trace.len(),
{
    if trace.len() > 0 {
        let front = trace.drop_last();
        let w = trace.last();
        assert forall|i: int, j: int| 0 <= i <= j < front.len() implies (
        #[trigger] front[i]).wall_time_ms >= worst_cutoff((#[trigger] front[j]).wall_time_ms) by {
            assert(trace[i] == front[i] && trace[j] == front[j]);
        }
        lemma_worst_without_expiry(front);
        let before = history_of(front).worst;
        let top = capped(inserted(before, w));
        let cutoff = worst_cutoff(w.wall_time_ms);
        if front.len() > 0 {
            law_worst_events_are_recent(front);
        }
        lemma_place(before, w.duration_ns);
        assert forall|i: int| 0 <= i < top.len() implies (#[trigger] top[i]).wall_time_ms
            >= cutoff by {
            let p = place(before, w.duration_ns);
            assert(trace[trace.len() - 1] == w);
            if i != p {
                let k = if i < p { i } else { i - 1 };
                assert(top[i] == before[k]);
                assert(front.contains(before[k]));
                let t = choose|t: int| 0 <= t < front.len() && front[t] == before[k];
                assert(trace[t] == before[k]);
            }
        }
        lemma_since_all(top, cutoff);
    }
}

/// The events of the minutes that have buckets.
spec fn in_buckets(trace: Seq<WorstView>, buckets: Seq<MinuteView>) -> Seq<WorstView> {
    trace.filter(|w: WorstView| has_minute(buckets, minute_of(w.wall_time_ms)))
}

/// The events of the last 24 hours, counted from the start of the latest minute.
pub open spec fn in_window(trace: Seq<WorstView>) -> Seq<WorstView> {
    trace.filter(
        |w: WorstView|
            minute_of(w.wall_time_ms) >= bucket_cutoff(minute_of(trace.last().wall_time_ms)),
    )
}

/// A figure of events added up.
spec fn weight(events: Seq<WorstView>, figure: spec_fn(WorstView) -> int) -> int
    decreases events.len(),
{
    if events.len() == 0 {
        0
    } else {
        weight(events.drop_last(), figure) + figure(events.last())
    }
}

/// One more event adds its figure.
proof fn lemma_weight_push(
    events: Seq<WorstView>,
    w: WorstView,
    figure: spec_fn(WorstView) -> int,
)
    ensures
        weight(events.push(w), figure) == weight(events, figure) + figure(w),
{
    assert(events.push(w).drop_last() =~= events);
}

/// Counting one for each event counts the events.
proof fn lemma_weight_one(events: Seq<WorstView>)
    ensures
        weight(events, |w: WorstView| 1) == events.len(),
    decreases events.len(),
{
    if events.len() > 0 {
        lemma_weight_one(events.drop_last());
    }
}

/// Counting one for each event that meets a condition counts the samples that meet it.
proof fn lemma_weight_count(events: Seq<WorstView>, keep: spec_fn(Sample) -> bool)
    ensures
        weight(
            events,
            |w: WorstView|
                if keep(sample_of(w)) {
                    1
                } else {
                    0
                },
        ) == samples(events).filter(keep).len(),
    decreases events.len(),
{
    reveal(Seq::filter);
    if events.len() > 0 {
        lemma_weight_count(events.drop_last(), keep);
        assert(samples(events).drop_last() =~= samples(events.drop_last()));
    }
}

/// Adding the durations of the events that meet a condition adds those of the samples that meet it.
proof fn lemma_weight_ns(events: Seq<WorstView>, keep: spec_fn(Sample) -> bool)
    ensures
        weight(
            events,
            |w: WorstView|
                if keep(sample_of(w)) {
                    w.duration_ns as int
                } else {
                    0
                },
        ) == total_ns(samples(events).filter(keep)),
    decreases events.len(),
{
    reveal(Seq::filter);
    if events.len() > 0 {
        let front = events.drop_last();
        lemma_weight_ns(front, keep);
        assert(samples(events).drop_last() =~= samples(front));
        lemma_total_ns_push(samples(front).filter(keep), sample_of(events.last()));
    }
}

/// Conditions that agree on the items of a sequence keep the same items.
proof fn lemma_filter_same(
    trace: Seq<WorstView>,
    a: spec_fn(WorstView) -> bool,
    b: spec_fn(WorstView) -> bool,
)
    requires
        forall|i: int| 0 <= i < trace.len() ==> a(#[trigger] trace[i]) == b(trace[i]),
    ensures
        trace.filter(a) == trace.filter(b),
    decreases trace.len(),
{
    reveal(Seq::filter);
    if trace.len() > 0 {
        lemma_filter_same(trace.drop_last(), a, b);
    }
}

/// Without buckets there are no events in them.
proof fn lemma_in_no_buckets(trace: Seq<WorstView>, buckets: Seq<MinuteView>)
    requires
        buckets.len() == 0,
    ensures
        in_buckets(trace, buckets).len() == 0,
    decreases trace.len(),
{
    reveal(Seq::filter);
    if trace.len() > 0 {
        lemma_in_no_buckets(trace.drop_last(), buckets);
    }
}

/// One more bucket brings in the events of its minute.
proof fn lemma_in_buckets_push(
    trace: Seq<WorstView>,
    buckets: Seq<MinuteView>,
    v: MinuteView,
    figure: spec_fn(WorstView) -> int,
)
    requires
        !has_minute(buckets, v.minute_ts),
    ensures
        weight(in_buckets(trace, buckets.push(v)), figure) == weight(
            in_buckets(trace, buckets),
            figure,
        ) + weight(in_minute(trace, v.minute_ts), figure),
    decreases trace.len(),
{
    let more = buckets.push(v);
    if trace.len() > 0 {
        let front = trace.drop_last();
        let w = trace.last();
        let m = minute_of(w.wall_time_ms);
        lemma_in_buckets_push(front, buckets, v, figure);
        assert(front.push(w) =~= trace);
        front.lemma_filter_push(w, |w: WorstView| has_minute(more, minute_of(w.wall_time_ms)));
        front.lemma_filter_push(w, |w: WorstView| has_minute(buckets, minute_of(w.wall_time_ms)));
        front.lemma_filter_push(w, |w: WorstView| minute_of(w.wall_time_ms) == v.minute_ts);
        lemma_weight_push(in_buckets(front, more), w, figure);
        lemma_weight_push(in_buckets(front, buckets), w, figure);
        lemma_weight_push(in_minute(front, v.minute_ts), w, figure);
        assert(has_minute(more, m) == (has_minute(buckets, m) || m == v.minute_ts)) by {
            if has_minute(buckets, m) {
                let i = choose|i: int|
                    0 <= i < buckets.len() && (#[trigger] buckets[i]).minute_ts == m;
                assert(more[i].minute_ts == m);
            }
            if m == v.minute_ts {
                assert(more[buckets.len() as int].minute_ts == m);
            }
            if has_minute(more, m) && m != v.minute_ts {
                let i = choose|i: int| 0 <= i < more.len() && (#[trigger] more[i]).minute_ts == m;
                assert(buckets[i].minute_ts == m);
            }
        }
    }
}

/// Where each bucket has a figure of the events of its own minute, the buckets together have that
/// of all their events.
proof fn lemma_buckets_total(
    trace: Seq<WorstView>,
    buckets: Seq<MinuteView>,
    of_bucket: spec_fn(MinuteView) -> int,
    of_event: spec_fn(WorstView) -> int,
)
    requires
        ascending(buckets),
        forall|i: int|
            0 <= i < buckets.len() ==> of_bucket(#[trigger] buckets[i]) == weight(
                in_minute(trace, buckets[i].minute_ts),
                of_event,
            ),
    ensures
        total_of(buckets, of_bucket) == weight(in_buckets(trace, buckets), of_event),
    decreases buckets.len(),
{
    if buckets.len() == 0 {
        lemma_in_no_buckets(trace, buckets);
    } else {
        let front = buckets.drop_last();
        let v = buckets.last();
        assert forall|i: int| 0 <= i < front.len() implies of_bucket(#[trigger] front[i]) == weight(
            in_minute(trace, front[i].minute_ts),
            of_event,
        ) by {
            assert(buckets[i] == front[i]);
        }
        assert forall|i: int, j: int| 0 <= i < j < front.len() implies (
        #[trigger] front[i]).minute_ts < (#[trigger] front[j]).minute_ts by {
            assert(buckets[i] == front[i] && buckets[j] == front[j]);
        }
        assert forall|i: int| 0 <= i < front.len() implies (#[trigger] front[i]).minute_ts
            != v.minute_ts by {
            assert(buckets[i].minute_ts < buckets[buckets.len() - 1].minute_ts);
        }
        lemma_buckets_total(trace, front, of_bucket, of_event);
        lemma_in_buckets_push(trace, front, v, of_event);
        assert(front.push(v) =~= buckets);
        assert(of_bucket(buckets[buckets.len() - 1]) == weight(
            in_minute(trace, v.minute_ts),
            of_event,
        ));
    }
}

/// No minute of the run outgrows its counters.
pub open spec fn minutes_fit(trace: Seq<WorstView>) -> bool {
    forall|m: u64| #[trigger]
        in_minute(trace, m).len() <= u32::MAX && total_ns(samples(in_minute(trace, m))) <= u64::MAX
}

/// The events in the buckets are those of the last 24 hours, and each bucket sums up its own.
proof fn lemma_buckets_hold_window(trace: Seq<WorstView>)
    requires
        trace.len() > 0,
        chronological(trace),
        minutes_fit(trace),
    ensures
        ascending(history_of(trace).buckets),
        in_buckets(trace, history_of(trace).buckets) == in_window(trace),
        forall|i: int|
            0 <= i < history_of(trace).buckets.len() ==> sums_up(
                #[trigger] history_of(trace).buckets[i],
                samples(in_minute(trace, history_of(trace).buckets[i].minute_ts)),
            ),
{
    law_history_covers_the_day(trace);
    let buckets = history_of(trace).buckets;
    let cutoff = bucket_cutoff(minute_of(trace.last().wall_time_ms));
    assert forall|i: int| 0 <= i < buckets.len() implies sums_up(
        #[trigger] buckets[i],
        samples(in_minute(trace, buckets[i].minute_ts)),
    ) by {
        let m = buckets[i].minute_ts;
        assert(in_minute(trace, m).len() <= u32::MAX);
        law_bucket_sums_up_events(m, samples(in_minute(trace, m)));
    }
    let listed = |w: WorstView| has_minute(buckets, minute_of(w.wall_time_ms));
    let recent = |w: WorstView|
        minute_of(w.wall_time_ms) >= bucket_cutoff(minute_of(trace.last().wall_time_ms));
    assert forall|i: int| 0 <= i < trace.len() implies listed(#[trigger] trace[i]) == recent(
        trace[i],
    ) by {
        let m = minute_of(trace[i].wall_time_ms);
        if has_minute(buckets, m) {
            let k = choose|k: int| 0 <= k < buckets.len() && (#[trigger] buckets[k]).minute_ts == m;
            assert(cutoff <= buckets[k].minute_ts);
        }
    }
    lemma_filter_same(trace, listed, recent);
}

/// The history counts every event of the last 24 hours exactly once: while the clock does not go
/// back and no minute outgrows its counters, its number of events, its severities, its bins and the
/// tallies of each task are those of the events in that window. No bucket is empty.
pub proof fn law_history_counts_each_event_once(trace: Seq<WorstView>)
    requires
        trace.len() > 0,
        chronological(trace),
        minutes_fit(trace),
    ensures
        forall|i: int|
            0 <= i < history_of(trace).buckets.len() ==> (
            #[trigger] history_of(trace).buckets[i]).count >= 1,
        events_total(history_of(trace).buckets) == in_window(trace).len(),
        forall|k: int|
            0 <= k < SEVERITY_COUNT ==> #[trigger] sev_total(history_of(trace).buckets, k)
                == of_severity(samples(in_window(trace)), k).len(),
        forall|k: int|
            0 <= k < BIN_COUNT ==> #[trigger] bin_total(history_of(trace).buckets, k) == of_bin(
                samples(in_window(trace)),
                k,
            ).len(),
        forall|c: Seq<char>| #[trigger]
            comm_count(history_of(trace).buckets, c) == of_aggressor(
                samples(in_window(trace)),
                c,
            ).len(),
        forall|c: Seq<char>| #[trigger]
            comm_ns(history_of(trace).buckets, c) == total_ns(
                of_aggressor(samples(in_window(trace)), c),
            ),
{
    lemma_buckets_hold_window(trace);
    law_history_covers_the_day(trace);
    let buckets = history_of(trace).buckets;
    let window = in_window(trace);
    {
        let one = |w: WorstView| 1int;
        assert forall|i: int| 0 <= i < buckets.len() implies (#[trigger] buckets[i]).count
            == weight(in_minute(trace, buckets[i].minute_ts), one) by {
            lemma_weight_one(in_minute(trace, buckets[i].minute_ts));
        }
        lemma_buckets_total(trace, buckets, |v: MinuteView| v.count as int, one);
        lemma_weight_one(window);
    }
    assert forall|k: int| 0 <= k < SEVERITY_COUNT implies #[trigger] sev_total(buckets, k)
        == of_severity(samples(window), k).len() by {
        let keep = |s: Sample| severity(s.duration_ns) == k;
        let one = |w: WorstView|
            if keep(sample_of(w)) {
                1int
            } else {
                0
            };
        assert forall|i: int| 0 <= i < buckets.len() implies (#[trigger] buckets[i]).sev[k]
            == weight(in_minute(trace, buckets[i].minute_ts), one) by {
            lemma_weight_count(in_minute(trace, buckets[i].minute_ts), keep);
        }
        lemma_buckets_total(trace, buckets, |v: MinuteView| v.sev[k] as int, one);
        lemma_weight_count(window, keep);
    }
    assert forall|k: int| 0 <= k < BIN_COUNT implies #[trigger] bin_total(buckets, k) == of_bin(
        samples(window),
        k,
    ).len() by {
        let keep = |s: Sample| hist_bin(s.duration_ns) == k;
        let one = |w: WorstView|
            if keep(sample_of(w)) {
                1int
            } else {
                0
            };
        assert forall|i: int| 0 <= i < buckets.len() implies (#[trigger] buckets[i]).histogram[k]
            == weight(in_minute(trace, buckets[i].minute_ts), one) by {
            lemma_weight_count(in_minute(trace, buckets[i].minute_ts), keep);
        }
        lemma_buckets_total(trace, buckets, |v: MinuteView| v.histogram[k] as int, one);
        lemma_weight_count(window, keep);
    }
    assert forall|c: Seq<char>| #[trigger]
        comm_count(buckets, c) == of_aggressor(samples(window), c).len() by {
        let keep = |s: Sample| s.aggressor_comm == c;
        let one = |w: WorstView|
            if keep(sample_of(w)) {
                1int
            } else {
                0
            };
        assert forall|i: int| 0 <= i < buckets.len() implies tally_of(
            (#[trigger] buckets[i]).aggressors,
            c,
        ).0 == weight(in_minute(trace, buckets[i].minute_ts), one) by {
            lemma_weight_count(in_minute(trace, buckets[i].minute_ts), keep);
            assert(buckets[i].aggressors.contains_key(c) <==> of_aggressor(
                samples(in_minute(trace, buckets[i].minute_ts)),
                c,
            ).len() > 0);
        }
        lemma_buckets_total(
            trace,
            buckets,
            |v: MinuteView| tally_of(v.aggressors, c).0 as int,
            one,
        );
        lemma_weight_count(window, keep);
    }
    assert forall|c: Seq<char>| #[trigger]
        comm_ns(buckets, c) == total_ns(of_aggressor(samples(window), c)) by {
        let keep = |s: Sample| s.aggressor_comm == c;
        let ns = |w: WorstView|
            if keep(sample_of(w)) {
                w.duration_ns as int
            } else {
                0
            };
        assert forall|i: int| 0 <= i < buckets.len() implies tally_of(
            (#[trigger] buckets[i]).aggressors,
            c,
        ).1 == weight(in_minute(trace, buckets[i].minute_ts), ns) by {
            lemma_weight_ns(in_minute(trace, buckets[i].minute_ts), keep);
            assert(buckets[i].aggressors.contains_key(c) <==> of_aggressor(
                samples(in_minute(trace, buckets[i].minute_ts)),
                c,
            ).len() > 0);
        }
        lemma_buckets_total(
            trace,
            buckets,
            |v: MinuteView| tally_of(v.aggressors, c).1 as int,
            ns,
        );
        lemma_weight_ns(window, keep);
    }
}

/// A filter holds what meets its condition, and nothing else.
proof fn lemma_filter_holds(trace: Seq<WorstView>, keep: spec_fn(WorstView) -> bool)
    ensures
        forall|w: WorstView| #[trigger]
            trace.filter(keep).contains(w) <==> trace.contains(w) && keep(w),
    decreases trace.len(),
{
    reveal(Seq::filter);
    if trace.len() > 0 {
        let front = trace.drop_last();
        lemma_filter_holds(front, keep);
        let kept = front.filter(keep);
        let last = trace.last();
        assert forall|w: WorstView| #[trigger]
            trace.filter(keep).contains(w) <==> trace.contains(w) && keep(w) by {
            if trace.contains(w) && w != last {
                let i = choose|i: int| 0 <= i < trace.len() && trace[i] == w;
                assert(front[i] == w);
            }
            if front.contains(w) {
                let i = choose|i: int| 0 <= i < front.len() && front[i] == w;
                assert(trace[i] == w);
            }
            assert(trace[trace.len() - 1] == last);
            assert(kept.contains(w) <==> front.contains(w) && keep(w));
            if keep(last) {
                assert(kept.push(last)[kept.len() as int] == last);
                if kept.contains(w) {
                    let i = choose|i: int| 0 <= i < kept.len() && kept[i] == w;
                    assert(kept.push(last)[i] == w);
                }
            }
        }
    }
}

/// The maximum of the history is the longest duration of the last 24 hours: while the clock does
/// not go back and no minute outgrows its counters, no event in that window is longer, one is as
/// long, and no ranked event is longer.
pub proof fn law_maximum_is_that_of_the_day(trace: Seq<WorstView>)
    requires
        trace.len() > 0,
        chronological(trace),
        minutes_fit(trace),
    ensures
        is_longest(samples(in_window(trace)), longest(history_of(trace).buckets)),
        forall|i: int|
            0 <= i < history_of(trace).worst.len() ==> (
            #[trigger] history_of(trace).worst[i]).duration_ns <= longest(
                history_of(trace).buckets,
            ),
{
    lemma_buckets_hold_window(trace);
    law_history_covers_the_day(trace);
    law_worst_events_are_recent(trace);
    let buckets = history_of(trace).buckets;
    let window = in_window(trace);
    let max = longest(buckets);
    let cutoff = bucket_cutoff(minute_of(trace.last().wall_time_ms));
    let recent = |w: WorstView|
        minute_of(w.wall_time_ms) >= bucket_cutoff(minute_of(trace.last().wall_time_ms));
    lemma_filter_holds(trace, recent);
    assert forall|w: WorstView| #[trigger] window.contains(w) implies w.duration_ns <= max by {
        let m = minute_of(w.wall_time_ms);
        let t = choose|t: int| 0 <= t < trace.len() && trace[t] == w;
        assert(has_minute(buckets, minute_of(trace[t].wall_time_ms)));
        let k = choose|k: int| 0 <= k < buckets.len() && (#[trigger] buckets[k]).minute_ts == m;
        let events = in_minute(trace, m);
        lemma_filter_holds(trace, |w: WorstView| minute_of(w.wall_time_ms) == m);
        assert(events.contains(w));
        let j = choose|j: int| 0 <= j < events.len() && events[j] == w;
        assert(sums_up(buckets[k], samples(events)));
        assert(samples(events)[j].duration_ns <= buckets[k].max_ns);
        law_maximum_covers_every_minute(buckets, k);
    }
    assert forall|i: int| 0 <= i < samples(window).len() implies (
    #[trigger] samples(window)[i]).duration_ns <= max by {
        assert(window.contains(window[i]));
    }
    law_maximum_covers_every_minute(buckets, 0);
    if max != 0 {
        let k = choose|k: int| 0 <= k < buckets.len() && (#[trigger] buckets[k]).max_ns == max;
        let m = buckets[k].minute_ts;
        let events = in_minute(trace, m);
        lemma_filter_holds(trace, |w: WorstView| minute_of(w.wall_time_ms) == m);
        assert(sums_up(buckets[k], samples(events)));
        let j = choose|j: int|
            0 <= j < samples(events).len() && (#[trigger] samples(events)[j]).duration_ns == max;
        assert(events.contains(events[j]));
        assert(window.contains(events[j]));
        let i = choose|i: int| 0 <= i < window.len() && window[i] == events[j];
        assert(samples(window)[i].duration_ns == max);
    }
    let worst = history_of(trace).worst;
    assert forall|i: int| 0 <= i < worst.len() implies (#[trigger] worst[i]).duration_ns
        <= max by {
        assert(trace.contains(worst[i]));
        assert(minute_of(worst[i].wall_time_ms) >= cutoff);
        assert(window.contains(worst[i]));
    }
}

/// The history could take up each event of the run in its turn.
pub open spec fn recordable(trace: Seq<WorstView>) -> bool
    decreases trace.len(),
{
    trace.len() > 0 ==> recordable(trace.drop_last()) && history_of(trace.drop_last()).has_room(
        trace.last().duration_ns,
        trace.last().wall_time_ms,
    )
}

/// No bucket is empty: whatever events the history has taken up, in whatever order the clock has
/// them, each of its buckets has counted at least one, and its figures agree.
pub proof fn law_no_bucket_is_empty(trace: Seq<WorstView>)
    requires
        recordable(trace),
    ensures
        forall|i: int|
            0 <= i < history_of(trace).buckets.len() ==> (
            #[trigger] history_of(trace).buckets[i]).consistent() && history_of(
                trace,
            ).buckets[i].count >= 1,
    decreases trace.len(),
{
    if trace.len() > 0 {
        let w = trace.last();
        let front = trace.drop_last();
        law_no_bucket_is_empty(front);
        let before = history_of(front).buckets;
        let open = opened(before, minute_of(w.wall_time_ms));
        let now = counted(before, w);
        lemma_empty_consistent(minute_of(w.wall_time_ms));
        assert(open.last().consistent() && open.last().has_room(w.duration_ns)) by {
            if before.len() > 0 {
                assert(before[before.len() - 1].consistent());
            }
        }
        lemma_recorded_consistent(open.last(), sample_of(w));
        let n = lemma_pruned(now, bucket_cutoff(minute_of(w.wall_time_ms)));
        assert forall|i: int| 0 <= i < history_of(trace).buckets.len() implies (
        #[trigger] history_of(trace).buckets[i]).consistent() && history_of(
            trace,
        ).buckets[i].count >= 1 by {
            assert(history_of(trace).buckets[i] == now[i + n]);
            if i + n < now.len() - 1 {
                assert(now[i + n] == before[i + n]);
            }
        }
    }
}

/// The minute of a bucket is that of some event.
proof fn lemma_bucket_minutes(trace: Seq<WorstView>)
    ensures
        forall|i: int|
            0 <= i < history_of(trace).buckets.len() ==> exists|k: int|
                0 <= k < trace.len() && minute_of((#[trigger] trace[k]).wall_time_ms) == (
                #[trigger] history_of(trace).buckets[i]).minute_ts,
    decreases trace.len(),
{
    if trace.len() > 0 {
        let w = trace.last();
        let front = trace.drop_last();
        lemma_bucket_minutes(front);
        let before = history_of(front).buckets;
        let now = counted(before, w);
        let after = history_of(trace).buckets;
        let n = lemma_pruned(now, bucket_cutoff(minute_of(w.wall_time_ms)));
        assert forall|i: int| 0 <= i < after.len() implies exists|k: int|
            0 <= k < trace.len() && minute_of((#[trigger] trace[k]).wall_time_ms) == (
            #[trigger] after[i]).minute_ts by {
            assert(after[i] == now[i + n]);
            if i + n < now.len() - 1 {
                assert(now[i + n] == before[i + n]);
                let k = choose|k: int|
                    0 <= k < front.len() && minute_of((#[trigger] front[k]).wall_time_ms)
                        == before[i + n].minute_ts;
                assert(trace[k] == front[k]);
            } else {
                assert(trace[trace.len() - 1] == w);
            }
        }
    }
}

/// While no event is older than 24 hours when another is recorded, no bucket is dropped.
proof fn lemma_nothing_pruned(trace: Seq<WorstView>)
    requires
        trace.len() > 0,
        within_a_day(trace),
    ensures
        history_of(trace).buckets == counted(
            history_of(trace.drop_last()).buckets,
            trace.last(),
        ),
        within_a_day(trace.drop_last()),
{
    let w = trace.last();
    let front = trace.drop_last();
    let before = history_of(front).buckets;
    let now = counted(before, w);
    let cutoff = bucket_cutoff(minute_of(w.wall_time_ms));
    assert forall|i: int, j: int| 0 <= i <= j < front.len() implies (
    #[trigger] front[i]).wall_time_ms >= worst_cutoff((#[trigger] front[j]).wall_time_ms) by {
        assert(trace[i] == front[i] && trace[j] == front[j]);
    }
    lemma_bucket_minutes(front);
    if before.len() > 0 {
        let k = choose|k: int|
            0 <= k < front.len() && minute_of((#[trigger] front[k]).wall_time_ms)
                == before[0].minute_ts;
        assert(trace[k] == front[k] && trace[trace.len() - 1] == w);
        assert(trace[k].wall_time_ms >= worst_cutoff(w.wall_time_ms));
        assert(before[0].minute_ts >= cutoff);
    }
    assert(now[0].minute_ts >= cutoff);
}

/// A figure that grows with each recorded event by that of the event adds up, over the buckets, to
/// that of all events, while none is older than 24 hours when another is recorded.
proof fn lemma_run_total(
    trace: Seq<WorstView>,
    of_bucket: spec_fn(MinuteView) -> int,
    of_event: spec_fn(WorstView) -> int,
)
    requires
        recordable(trace),
        within_a_day(trace),
        forall|m: u64| of_bucket(#[trigger] MinuteView::empty(m)) == 0,
        forall|v: MinuteView, w: WorstView|
            v.consistent() && v.has_room(w.duration_ns) ==> of_bucket(
                #[trigger] v.recorded(sample_of(w)),
            ) == of_bucket(v) + of_event(w),
    ensures
        total_of(history_of(trace).buckets, of_bucket) == weight(trace, of_event),
    decreases trace.len(),
{
    if trace.len() > 0 {
        let w = trace.last();
        let front = trace.drop_last();
        lemma_nothing_pruned(trace);
        lemma_run_total(front, of_bucket, of_event);
        law_no_bucket_is_empty(front);
        let before = history_of(front).buckets;
        let open = opened(before, minute_of(w.wall_time_ms));
        let last = open.last();
        lemma_empty_consistent(minute_of(w.wall_time_ms));
        assert(last.consistent() && last.has_room(w.duration_ns)) by {
            if before.len() > 0 {
                assert(before[before.len() - 1].consistent());
            }
        }
        lemma_total_push(before, MinuteView::empty(minute_of(w.wall_time_ms)), of_bucket);
        lemma_total_push(open.drop_last(), last.recorded(sample_of(w)), of_bucket);
        assert(total_of(open, of_bucket) == total_of(before, of_bucket));
    }
}

/// While no event is older than 24 hours when another is recorded, in whatever order the clock has
/// them, the history counts every event it has taken up exactly once: its number of events, its
/// severities, its bins and the tallies of each task are those of all events.
pub proof fn law_history_counts_a_day_in_any_order(trace: Seq<WorstView>)
    requires
        recordable(trace),
        within_a_day(trace),
    ensures
        events_total(history_of(trace).buckets) == trace.len(),
        forall|k: int|
            0 <= k < SEVERITY_COUNT ==> #[trigger] sev_total(history_of(trace).buckets, k)
                == of_severity(samples(trace), k).len(),
        forall|k: int|
            0 <= k < BIN_COUNT ==> #[trigger] bin_total(history_of(trace).buckets, k) == of_bin(
                samples(trace),
                k,
            ).len(),
        forall|c: Seq<char>| #[trigger]
            comm_count(history_of(trace).buckets, c) == of_aggressor(samples(trace), c).len(),
        forall|c: Seq<char>| #[trigger]
            comm_ns(history_of(trace).buckets, c) == total_ns(of_aggressor(samples(trace), c)),
{
    let buckets = history_of(trace).buckets;
    lemma_weight_one(trace);
    lemma_run_total(trace, |v: MinuteView| v.count as int, |w: WorstView| 1int);
    assert forall|k: int| 0 <= k < SEVERITY_COUNT implies #[trigger] sev_total(buckets, k)
        == of_severity(samples(trace), k).len() by {
        let keep = |s: Sample| severity(s.duration_ns) == k;
        let figure = |v: MinuteView| v.sev[k] as int;
        let one = |w: WorstView|
            if keep(sample_of(w)) {
                1int
            } else {
                0
            };
        assert forall|v: MinuteView, w: WorstView|
            v.consistent() && v.has_room(w.duration_ns) implies figure(
            #[trigger] v.recorded(sample_of(w)),
        ) == figure(v) + one(w) by {
            lemma_sum_bounds(v.sev, severity(w.duration_ns));
        }
        lemma_run_total(trace, figure, one);
        lemma_weight_count(trace, keep);
    }
    assert forall|k: int| 0 <= k < BIN_COUNT implies #[trigger] bin_total(buckets, k) == of_bin(
        samples(trace),
        k,
    ).len() by {
        let keep = |s: Sample| hist_bin(s.duration_ns) == k;
        let figure = |v: MinuteView| v.histogram[k] as int;
        let one = |w: WorstView|
            if keep(sample_of(w)) {
                1int
            } else {
                0
            };
        assert forall|v: MinuteView, w: WorstView|
            v.consistent() && v.has_room(w.duration_ns) implies figure(
            #[trigger] v.recorded(sample_of(w)),
        ) == figure(v) + one(w) by {
            lemma_first_bin_above(w.duration_ns as int, 0);
            lemma_sum_bounds(v.histogram, hist_bin(w.duration_ns));
        }
        lemma_run_total(trace, figure, one);
        lemma_weight_count(trace, keep);
    }
    assert forall|c: Seq<char>| #[trigger]
        comm_count(buckets, c) == of_aggressor(samples(trace), c).len() by {
        let keep = |s: Sample| s.aggressor_comm == c;
        let figure = |v: MinuteView| tally_of(v.aggressors, c).0 as int;
        let one = |w: WorstView|
            if keep(sample_of(w)) {
                1int
            } else {
                0
            };
        lemma_run_total(trace, figure, one);
        lemma_weight_count(trace, keep);
    }
    assert forall|c: Seq<char>| #[trigger]
        comm_ns(buckets, c) == total_ns(of_aggressor(samples(trace), c)) by {
        let keep = |s: Sample| s.aggressor_comm == c;
        let figure = |v: MinuteView| tally_of(v.aggressors, c).1 as int;
        let ns = |w: WorstView|
            if keep(sample_of(w)) {
                w.duration_ns as int
            } else {
                0
            };
        lemma_run_total(trace, figure, ns);
        lemma_weight_ns(trace, keep);
    }
}

/// One more event raises the maximum of the buckets to its duration, if that is longer.
proof fn lemma_longest_counted(before: Seq<MinuteView>, w: WorstView)
    ensures
        longest(counted(before, w)) == if w.duration_ns > longest(before) {
            w.duration_ns
        } else {
            longest(before)
        },
{
    let open = opened(before, minute_of(w.wall_time_ms));
    let now = counted(before, w);
    if open.len() > before.len() {
        assert(open.drop_last() =~= before);
    }
    assert(longest(open) == longest(before));
    assert(now.drop_last() =~= open.drop_last());
    assert(now.last().max_ns == if w.duration_ns > open.last().max_ns {
        w.duration_ns
    } else {
        open.last().max_ns
    });
}

/// The first of a ranking with one more event is the longer of that event and the first before.
proof fn lemma_first_ranked(ranked: Seq<WorstView>, w: WorstView)
    requires
        descending(ranked),
    ensures
        capped(inserted(ranked, w)).len() > 0,
        capped(inserted(ranked, w))[0] == if ranked.len() == 0 || w.duration_ns
            > ranked[0].duration_ns {
            w
        } else {
            ranked[0]
        },
{
    lemma_place(ranked, w.duration_ns);
    let p = place(ranked, w.duration_ns);
    if ranked.len() > 0 && p == 0 {
        assert(ranked[0].duration_ns < w.duration_ns);
    }
    if p > 0 {
        assert(ranked[0].duration_ns >= w.duration_ns);
    }
}

/// While no event is older than 24 hours when another is recorded, in whatever order the clock has
/// them, the first of the ranking is the maximum of the buckets.
pub proof fn law_first_ranked_is_the_maximum(trace: Seq<WorstView>)
    requires
        trace.len() > 0,
        within_a_day(trace),
    ensures
        history_of(trace).worst.len() > 0,
        history_of(trace).worst[0].duration_ns == longest(history_of(trace).buckets),
    decreases trace.len(),
{
    let w = trace.last();
    let front = trace.drop_last();
    lemma_nothing_pruned(trace);
    lemma_worst_without_expiry(trace);
    lemma_worst_without_expiry(front);
    let ranked = history_of(front).worst;
    if front.len() > 0 {
        law_first_ranked_is_the_maximum(front);
        law_worst_events_are_recent(front);
    }
    lemma_longest_counted(history_of(front).buckets, w);
    lemma_first_ranked(ranked, w);
    assert(history_of(trace).worst == capped(inserted(ranked, w)));
}

/// A history follows the run of its events: a new one is that of no events, and recording an event
/// makes it that of one event more.
pub proof fn law_history_follows_the_run(
    fresh: History24hStore,
    store: &mut History24hStore,
    w: WorstEvent,
    trace: Seq<WorstView>,
)
    requires
        call_ensures(History24hStore::new, (), fresh),
        call_ensures(History24hStore::record_event, (store, w), ()),
        old(store)@ == history_of(trace),
    ensures
        fresh@ == history_of(Seq::empty()),
        final(store)@ == history_of(trace.push(w@)),
{
    assert(trace.push(w@).drop_last() =~= trace);
}

/// The total duration is the durations added one by one.
proof fn lemma_total_ns_is_fold(events: Seq<WorstView>)
    ensures
        total_ns(samples(events)) == events.fold_left(
            0int,
            |n: int, w: WorstView| n + w.duration_ns,
        ),
    decreases events.len(),
{
    if events.len() > 0 {
        lemma_total_ns_is_fold(events.drop_last());
        assert(samples(events).drop_last() =~= samples(events.drop_last()));
    }
}

/// A report on a run of events shows, for each of its minutes, the events that the clock puts in that
/// minute: their number, their longest and their shortest duration, and their mean, rounded down.
/// This holds while the clock does not go back and no minute outgrows its counters.
pub proof fn law_report_shows_the_events_of_each_minute(
    trace: Seq<WorstView>,
    store: History24hStore,
    totals: HistoryTotals,
    now_ms: u64,
    p50_rank: u64,
    p99_rank: u64,
    json: History24hJson,
    i: int,
    events: Seq<WorstView>,
)
    requires
        store@ == history_of(trace),
        trace.len() > 0,
        chronological(trace),
        minutes_fit(trace),
        call_ensures(
            History24hStore::history24h,
            (&store, totals, now_ms, p50_rank, p99_rank),
            json,
        ),
        0 <= i < json.minutes@.len(),
        events == trace.filter(
            |w: WorstView|
                json.minutes@[i].minute_ts * 1000 <= w.wall_time_ms < json.minutes@[i].minute_ts
                    * 1000 + 60_000,
        ),
    ensures
        json.minutes@[i].minute_ts % 60 == 0,
        json.minutes@[i].count == events.len(),
        events.len() > 0,
        forall|k: int|
            0 <= k < events.len() ==> json.minutes@[i].min_ns <= (
            #[trigger] events[k]).duration_ns <= json.minutes@[i].max_ns,
        exists|k: int|
            0 <= k < events.len() && (#[trigger] events[k]).duration_ns == json.minutes@[i].max_ns,
        json.minutes@[i].avg_ns * events.len() <= events.fold_left(
            0int,
            |n: int, w: WorstView| n + w.duration_ns,
        ) < (json.minutes@[i].avg_ns + 1) * events.len(),
{
    let buckets = history_of(trace).buckets;
    law_report_shows_each_minute(store, totals, now_ms, p50_rank, p99_rank, json, 0);
    law_report_shows_each_minute(store, totals, now_ms, p50_rank, p99_rank, json, i);
    law_history_covers_the_day(trace);
    lemma_buckets_hold_window(trace);
    lemma_history_minutes(trace);
    let v = buckets[i];
    let m = v.minute_ts;
    assert(m % 60 == 0);
    assert forall|k: int| 0 <= k < trace.len() implies (minute_of(
        (#[trigger] trace[k]).wall_time_ms,
    ) == m) == (m * 1000 <= trace[k].wall_time_ms < m * 1000 + 60_000) by {
        lemma_minute_by_its_times(trace[k].wall_time_ms, m);
    }
    lemma_filter_same(
        trace,
        |w: WorstView| minute_of(w.wall_time_ms) == m,
        |w: WorstView|
            json.minutes@[i].minute_ts * 1000 <= w.wall_time_ms < json.minutes@[i].minute_ts * 1000
                + 60_000,
    );
    assert(in_minute(trace, m) == events);
    assert(sums_up(v, samples(in_minute(trace, v.minute_ts))));
    assert(in_minute(trace, v.minute_ts).len() > 0);
    lemma_total_ns_is_fold(events);
    let told = samples(events);
    assert forall|k: int| 0 <= k < events.len() implies json.minutes@[i].min_ns <= (
    #[trigger] events[k]).duration_ns <= json.minutes@[i].max_ns by {
        assert(told[k].duration_ns <= v.max_ns);
        assert(v.min_ns <= told[k].duration_ns);
    }
    if v.max_ns == 0 {
        assert(events[0].duration_ns <= json.minutes@[i].max_ns);
    } else {
        let k = choose|k: int| 0 <= k < told.len() && (#[trigger] told[k]).duration_ns == v.max_ns;
        assert(events[k].duration_ns == v.max_ns);
    }
}

} // verus!
