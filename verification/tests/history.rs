use jittersnoop::aggressor::AggressorTable;
use jittersnoop::bucket::MinuteBucket;
use jittersnoop::event::JitterEvent;
use jittersnoop::report::History24hJson;
use jittersnoop::store::{History24hStore, MINUTES_24H};
use jittersnoop::worst::{WorstEvent, WORST_EVENTS_CAP};

const MINUTE: u64 = 60_000;
const DAY: u64 = 24 * 60 * MINUTE;

fn comm(name: &str) -> [u8; 16] {
    let mut out = [0u8; 16];
    out[..name.len()].copy_from_slice(name.as_bytes());
    out
}

fn event(duration_ns: u64, aggressor: &str, cpu_id: u32) -> JitterEvent {
    JitterEvent {
        timestamp_ns: 1,
        duration_ns,
        cpu_id,
        victim_pid: 100,
        aggressor_pid: 200,
        victim_comm: comm("victim"),
        aggressor_comm: comm(aggressor),
    }
}

fn report(store: &History24hStore, now_ms: u64, p50: u64, p99: u64) -> History24hJson {
    store.history24h(store.totals().unwrap(), now_ms, p50, p99)
}

#[test]
fn bucket_sums_up_its_events() {
    let mut b = MinuteBucket::new(120);
    assert_eq!((b.minute_ts(), b.count(), b.max_ns(), b.min_ns(), b.sum_ns()), (120, 0, 0, u64::MAX, 0));
    b.record(1_500, "a", 1);
    b.record(500, "b", 1);
    b.record(20_000, "a", 2);
    assert_eq!((b.count(), b.max_ns(), b.min_ns(), b.sum_ns()), (3, 20_000, 500, 22_000));
    assert_eq!(*b.sev(), [2, 1, 0, 0]);
    assert_eq!(b.histogram()[0], 1);
    assert_eq!(b.histogram()[1], 1);
    assert_eq!(b.histogram()[5], 1);
    assert_eq!(b.histogram().iter().sum::<u32>(), 3);
    let tallies: Vec<(&str, u32, u64)> =
        b.aggressors().entries().iter().map(|e| (e.comm.as_str(), e.count, e.total_ns)).collect();
    assert_eq!(tallies, vec![("a", 2, 21_500), ("b", 1, 500)]);
    assert_eq!(b.cpus()[&1], (2, 1_500));
    assert_eq!(b.cpus()[&2], (1, 20_000));
    assert_eq!(b.cpus().len(), 2);
}

#[test]
fn bucket_has_room_for_a_bounded_sum() {
    let mut b = MinuteBucket::new(0);
    b.record(u64::MAX - 10, "a", 0);
    assert!(b.has_room(10));
    assert!(!b.has_room(11));
}

#[test]
fn empty_history() {
    let store = History24hStore::new();
    let json = report(&store, 77, 0, 0);
    assert!(json.minutes.is_empty());
    assert!(json.worst_events.is_empty());
    assert!(json.top_aggressors.is_empty());
    assert!(json.cpu_heatmap.is_empty());
    assert_eq!(json.histogram, vec![0; 20]);
    assert_eq!(json.summary.total_events, 0);
    assert_eq!(json.summary.max_ns, 0);
    assert_eq!(json.summary.max_wall_time_ms, 0);
    assert_eq!(json.summary.max_aggressor, "");
    assert_eq!(json.summary.max_victim, "");
    assert_eq!(json.summary.max_cpu, 0);
    assert_eq!(json.summary.approx_p50_ns, 0);
    assert_eq!(json.summary.approx_p99_ns, 0);
    assert_eq!(json.summary.sev, [0; 4]);
    assert_eq!(json.summary.window_start_ms, 77);
    assert_eq!(json.summary.window_end_ms, 77);
}

#[test]
fn report_of_three_events() {
    let mut store = History24hStore::new();
    store.record(&event(1_500, "a", 1), 5 * MINUTE + 10);
    store.record(&event(2_000_000, "b", 2), 5 * MINUTE + 20);
    store.record(&event(3_001, "a", 1), 7 * MINUTE);
    let json = report(&store, 8 * MINUTE, 1, 2);
    assert_eq!(json.minutes.len(), 2);
    let m = &json.minutes[0];
    assert_eq!((m.minute_ts, m.count, m.max_ns, m.min_ns, m.avg_ns), (300, 2, 2_000_000, 1_500, 1_000_750));
    assert_eq!(m.sev, [1, 0, 0, 1]);
    let m = &json.minutes[1];
    assert_eq!((m.minute_ts, m.count, m.max_ns, m.min_ns, m.avg_ns), (420, 1, 3_001, 3_001, 3_001));
    let s = &json.summary;
    assert_eq!(s.total_events, 3);
    assert_eq!(s.max_ns, 2_000_000);
    assert_eq!(s.max_wall_time_ms, 5 * MINUTE + 20);
    assert_eq!((s.max_aggressor.as_str(), s.max_victim.as_str(), s.max_cpu), ("b", "victim", 2));
    assert_eq!((s.approx_p50_ns, s.approx_p99_ns), (2_000, 5_000));
    assert_eq!(s.sev, [2, 0, 0, 1]);
    assert_eq!(s.window_start_ms, 300_000);
    assert_eq!(s.window_end_ms, 8 * MINUTE);
    assert_eq!(json.histogram[1], 1);
    assert_eq!(json.histogram[2], 1);
    assert_eq!(json.histogram[11], 1);
    let worst: Vec<u64> = json.worst_events.iter().map(|w| w.duration_ns).collect();
    assert_eq!(worst, vec![2_000_000, 3_001, 1_500]);
    assert_eq!(json.worst_events[1].aggressor_comm, "a");
    assert_eq!(json.worst_events[1].victim_pid, 100);
    assert_eq!(json.worst_events[1].aggressor_pid, 200);
    let top: Vec<(&str, u32, u64)> =
        json.top_aggressors.iter().map(|a| (a.comm.as_str(), a.count, a.total_ns)).collect();
    assert_eq!(top, vec![("b", 1, 2_000_000), ("a", 2, 4_501)]);
    let mut heat: Vec<(u64, u32, u32, u64)> =
        json.cpu_heatmap.iter().map(|c| (c.minute_ts, c.cpu_id, c.count, c.max_ns)).collect();
    heat.sort();
    assert_eq!(heat, vec![(300, 1, 1, 1_500), (300, 2, 1, 2_000_000), (420, 1, 1, 3_001)]);
}

#[test]
fn report_counts_each_event_once() {
    let mut store = History24hStore::new();
    for n in 0..500u64 {
        store.record(&event(n * n * 37, "x", (n % 5) as u32), n * 7_000);
    }
    let json = report(&store, 0, 250, 495);
    assert_eq!(json.summary.total_events, 500);
    assert_eq!(json.histogram.iter().sum::<u32>(), 500);
    assert_eq!(json.summary.sev.iter().sum::<u64>(), 500);
    assert_eq!(json.minutes.iter().map(|m| m.count).sum::<u32>(), 500);
    assert_eq!(json.cpu_heatmap.iter().map(|c| c.count).sum::<u32>(), 500);
    for (sev, bins) in [0..4, 4..7, 7..10, 10..20].into_iter().enumerate() {
        assert!(json.summary.sev[sev] > 0);
        assert_eq!(json.histogram[bins].iter().sum::<u32>() as u64, json.summary.sev[sev]);
    }
    assert!(json.summary.approx_p50_ns <= json.summary.approx_p99_ns);
    for m in &json.minutes {
        assert!(m.min_ns <= m.avg_ns && m.avg_ns <= m.max_ns && m.max_ns <= json.summary.max_ns);
    }
}

#[test]
fn history_covers_a_day() {
    let mut store = History24hStore::new();
    for minute in 0..3_000u64 {
        store.record(&event(1_000, "x", 0), minute * MINUTE);
        assert!(store.buckets().len() <= MINUTES_24H + 1);
    }
    let json = report(&store, 0, 0, 0);
    assert_eq!(json.minutes.len(), MINUTES_24H + 1);
    assert_eq!(json.minutes[0].minute_ts, (2_999 - 1_440) * 60);
    assert_eq!(json.summary.total_events, 1_441);
    assert_eq!(json.summary.window_start_ms, (2_999 - 1_440) * MINUTE);
}

#[test]
fn minute_at_the_cutoff_is_kept() {
    let mut store = History24hStore::new();
    store.record(&event(1_000, "x", 0), 5 * MINUTE);
    store.record(&event(1_000, "x", 0), 5 * MINUTE + DAY + 59_999);
    assert_eq!(store.buckets().len(), 2);
    store.record(&event(1_000, "x", 0), 6 * MINUTE + DAY);
    assert_eq!(store.buckets().len(), 2);
    assert_eq!(store.buckets()[0].minute_ts(), (5 * MINUTE + DAY) / 1_000);
}

#[test]
fn clock_going_back_opens_a_new_bucket() {
    let mut store = History24hStore::new();
    store.record(&event(1_000, "x", 0), 10 * MINUTE);
    store.record(&event(1_000, "x", 0), 9 * MINUTE);
    store.record(&event(1_000, "x", 0), 10 * MINUTE);
    let minutes: Vec<u64> = store.buckets().iter().map(|b| b.minute_ts()).collect();
    assert_eq!(minutes, vec![600, 540, 600]);
}

#[test]
fn ranking_keeps_the_longest() {
    let mut store = History24hStore::new();
    for n in 0..200u64 {
        store.record(&event((n * 73) % 200, "x", 0), 1_000 + n);
    }
    let worst: Vec<u64> = store.worst().iter().map(|w| w.duration_ns).collect();
    assert_eq!(worst.len(), WORST_EVENTS_CAP);
    assert_eq!(worst, (150..200).rev().collect::<Vec<u64>>());
}

#[test]
fn equal_durations_rank_by_arrival() {
    let mut store = History24hStore::new();
    for n in 0..60u64 {
        store.record(&event(5, "x", 0), n);
    }
    let times: Vec<u64> = store.worst().iter().map(|w| w.wall_time_ms).collect();
    assert_eq!(times, (0..50).collect::<Vec<u64>>());
}

#[test]
fn ranked_events_expire_after_a_day() {
    let mut store = History24hStore::new();
    store.record(&event(9_000, "old", 0), 1_000);
    store.record(&event(8_000, "edge", 0), 2_000);
    store.record(&event(10, "new", 0), 2_000 + DAY);
    let names: Vec<&str> = store.worst().iter().map(|w| w.aggressor_comm.as_str()).collect();
    assert_eq!(names, vec!["edge", "new"]);
}

#[test]
fn expired_places_are_not_refilled() {
    let mut store = History24hStore::new();
    for _ in 0..50 {
        store.record(&event(100, "long", 0), 0);
    }
    store.record(&event(99, "short", 0), 60 * MINUTE);
    // The full ranking turns the event away before it expires.
    store.record(&event(1, "late", 0), DAY + 1);
    assert!(store.worst().is_empty());
    store.record(&event(1, "last", 0), DAY + 2);
    let names: Vec<&str> = store.worst().iter().map(|w| w.aggressor_comm.as_str()).collect();
    assert_eq!(names, vec!["last"]);
}

#[test]
fn named_event_is_recorded_as_it_is() {
    let mut store = History24hStore::new();
    store.record_event(WorstEvent {
        wall_time_ms: 61_000,
        duration_ns: 12,
        cpu_id: 6,
        victim_pid: 1,
        aggressor_pid: 2,
        victim_comm: String::from("v"),
        aggressor_comm: String::from("a\u{fffd}"),
    });
    let json = report(&store, 0, 0, 0);
    assert_eq!(json.minutes[0].minute_ts, 60);
    assert_eq!(json.top_aggressors[0].comm, "a\u{fffd}");
    assert_eq!(json.worst_events[0].victim_comm, "v");
    assert_eq!(json.summary.max_cpu, 6);
}

#[test]
fn unreadable_names_fall_together() {
    let mut store = History24hStore::new();
    let mut e = event(10, "", 0);
    e.aggressor_comm[0] = 0xff;
    store.record(&e, 0);
    e.aggressor_comm[0] = 0xfe;
    store.record(&e, 0);
    let json = report(&store, 0, 0, 0);
    assert_eq!(json.top_aggressors.len(), 1);
    assert_eq!(json.top_aggressors[0].comm, "\u{fffd}");
    assert_eq!(json.top_aggressors[0].count, 2);
}

#[test]
fn report_names_twenty_tasks() {
    let mut store = History24hStore::new();
    for n in 0..30u64 {
        let name = format!("task{}", n);
        store.record(&event(1_000 + (n * 7) % 30, &name, 0), n * MINUTE);
        store.record(&event(1_000 + (n * 7) % 30, &name, 0), n * MINUTE + 1);
    }
    let json = report(&store, 0, 0, 0);
    let totals: Vec<u64> = json.top_aggressors.iter().map(|a| a.total_ns).collect();
    assert_eq!(totals, (1_010..1_030).rev().map(|t| 2 * t).collect::<Vec<u64>>());
    assert!(json.top_aggressors.iter().all(|a| a.count == 2));
}

#[test]
fn equal_totals_all_count() {
    let mut store = History24hStore::new();
    for n in 0..25 {
        store.record(&event(1_000, &format!("task{}", n), 0), 0);
    }
    let json = report(&store, 0, 0, 0);
    let mut names: Vec<&str> = json.top_aggressors.iter().map(|a| a.comm.as_str()).collect();
    names.sort();
    names.dedup();
    assert_eq!(names.len(), 20);
}

#[test]
fn history_has_room_unless_a_minute_overflows() {
    let mut store = History24hStore::new();
    assert!(store.has_room(u64::MAX, 0));
    store.record(&event(u64::MAX, "x", 0), 0);
    assert!(!store.has_room(1, 59_999));
    assert!(store.has_room(0, 59_999));
    assert!(store.has_room(u64::MAX, 60_000));
}

#[test]
fn totals_out_of_range_are_told() {
    let mut store = History24hStore::new();
    store.record(&event(u64::MAX, "x", 0), 0);
    assert!(store.totals().is_some());
    store.record(&event(1, "x", 0), MINUTE);
    assert!(store.totals().is_none());
}

#[test]
fn totals_of_different_tasks_do_not_add_up() {
    let mut store = History24hStore::new();
    store.record(&event(u64::MAX, "x", 0), 0);
    store.record(&event(u64::MAX, "y", 0), MINUTE);
    let json = report(&store, 0, 1, 2);
    assert_eq!(json.top_aggressors.len(), 2);
    assert_eq!(json.summary.max_ns, u64::MAX);
    assert_eq!(json.minutes[0].min_ns, 0);
    assert_eq!(json.minutes[0].avg_ns, u64::MAX);
}

#[test]
fn report_is_on_the_last_day_only() {
    let mut store = History24hStore::new();
    store.record(&event(9_000_000, "gone", 0), 2 * MINUTE);
    store.record(&event(700_000, "a", 0), 3 * MINUTE + 5);
    store.record(&event(40_000, "b", 1), 9 * MINUTE);
    store.record(&event(1_500, "a", 0), DAY + 3 * MINUTE + 10);
    let json = report(&store, 0, 1, 3);
    assert_eq!(json.summary.total_events, 3);
    assert_eq!(json.summary.sev, [1, 1, 1, 0]);
    assert_eq!((json.histogram[1], json.histogram[5], json.histogram[9]), (1, 1, 1));
    let top: Vec<(&str, u32, u64)> =
        json.top_aggressors.iter().map(|a| (a.comm.as_str(), a.count, a.total_ns)).collect();
    assert_eq!(top, vec![("a", 2, 701_500), ("b", 1, 40_000)]);
    // The minute of the oldest event still counts; the event itself has left the ranking.
    assert_eq!(json.summary.max_ns, 700_000);
    assert_eq!(json.summary.max_wall_time_ms, 9 * MINUTE);
    assert!(json.worst_events.iter().all(|w| w.duration_ns <= json.summary.max_ns));
}

#[test]
fn a_day_in_any_order_is_counted_once() {
    let mut store = History24hStore::new();
    let minutes = [700u64, 3, 1_200, 3, 699, 1_441, 2];
    for (n, minute) in minutes.iter().enumerate() {
        store.record(&event(1_000 * (n as u64 + 1), if n % 2 == 0 { "a" } else { "b" }, n as u32), minute * MINUTE);
    }
    let json = report(&store, 0, 1, 1);
    assert_eq!(json.summary.total_events, 7);
    assert_eq!(json.histogram.iter().sum::<u32>(), 7);
    assert!(json.minutes.iter().all(|m| m.count >= 1));
    assert_eq!(json.worst_events[0].duration_ns, 7_000);
    assert_eq!(json.summary.max_ns, 7_000);
    let top: Vec<(&str, u32, u64)> =
        json.top_aggressors.iter().map(|a| (a.comm.as_str(), a.count, a.total_ns)).collect();
    assert_eq!(top, vec![("a", 4, 16_000), ("b", 3, 12_000)]);
}

#[test]
fn tallies_of_a_bucket_add_up() {
    let mut b = MinuteBucket::new(0);
    for n in 0..40u64 {
        b.record(n * 321, &format!("task{}", n % 7), (n % 3) as u32);
    }
    let entries = b.aggressors().entries();
    assert_eq!(entries.iter().map(|e| e.count).sum::<u32>(), b.count());
    assert_eq!(entries.iter().map(|e| e.total_ns).sum::<u64>(), b.sum_ns());
    assert_eq!(b.cpus().values().map(|c| c.1).max(), Some(b.max_ns()));
}

#[test]
fn refused_merge_leaves_the_table_alone() {
    let mut table = AggressorTable::new();
    table.add("x", 1, u64::MAX);
    let mut other = AggressorTable::new();
    other.add("y", 1, 5);
    other.add("x", 1, 1);
    assert!(!table.merge(&other));
    assert_eq!(table.entries().len(), 1);
    assert_eq!(table.entries()[0].count, 1);
    let mut small = AggressorTable::new();
    small.add("y", 2, 5);
    assert!(table.merge(&small));
    assert_eq!((table.entries()[1].comm.as_str(), table.entries()[1].count), ("y", 2));
}
