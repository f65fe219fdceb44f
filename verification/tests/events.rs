use jittersnoop::event::{comm_to_string, JitterEvent, JitterEventJson, EVENT_SIZE};
use jittersnoop::rolling::{RollingBuffer, HISTORY_CAPACITY};
use jittersnoop::text::{csv_header, csv_line, needs_header, push_decimal};

fn comm(name: &[u8]) -> [u8; 16] {
    let mut out = [0u8; 16];
    out[..name.len()].copy_from_slice(name);
    out
}

fn event(n: u64) -> JitterEvent {
    JitterEvent {
        timestamp_ns: n,
        duration_ns: n + 1_000,
        cpu_id: 4,
        victim_pid: 100,
        aggressor_pid: 200,
        victim_comm: comm(b"victim"),
        aggressor_comm: comm(b"kworker/4:1"),
    }
}

fn entry(e: &JitterEvent) -> Vec<u8> {
    let mut data = Vec::new();
    data.extend_from_slice(&e.timestamp_ns.to_le_bytes());
    data.extend_from_slice(&e.duration_ns.to_le_bytes());
    data.extend_from_slice(&e.cpu_id.to_le_bytes());
    data.extend_from_slice(&e.victim_pid.to_le_bytes());
    data.extend_from_slice(&e.aggressor_pid.to_le_bytes());
    data.extend_from_slice(&e.victim_comm);
    data.extend_from_slice(&e.aggressor_comm);
    data.extend_from_slice(&[0xAA; 4]);
    data
}

#[test]
fn comm_ends_at_first_nul() {
    assert_eq!(comm_to_string(&comm(b"bash\0junk")), "bash");
    assert_eq!(comm_to_string(&[0u8; 16]), "");
}

#[test]
fn comm_may_fill_its_field() {
    assert_eq!(comm_to_string(b"0123456789abcdef"), "0123456789abcdef");
}

#[test]
fn comm_keeps_valid_utf8() {
    assert_eq!(comm_to_string(&comm("h\u{e9}t\u{4e2d}".as_bytes())), "h\u{e9}t\u{4e2d}");
}

#[test]
fn comm_replaces_invalid_utf8() {
    assert_eq!(comm_to_string(&comm(b"a\xffb")), "a\u{fffd}b");
    // A character cut off by the end of the field.
    assert_eq!(comm_to_string(b"0123456789abcde\xc3"), "0123456789abcde\u{fffd}");
}

#[test]
fn entry_of_full_size_is_read() {
    let e = event(0x0102_0304_0506_0708);
    let data = entry(&e);
    assert_eq!(data.len(), EVENT_SIZE);
    let read = JitterEvent::from_bytes(&data).unwrap();
    assert_eq!(read.timestamp_ns, e.timestamp_ns);
    assert_eq!(read.duration_ns, e.duration_ns);
    assert_eq!(read.cpu_id, 4);
    assert_eq!(read.victim_pid, 100);
    assert_eq!(read.aggressor_pid, 200);
    assert_eq!(read.victim_comm, e.victim_comm);
    assert_eq!(read.aggressor_comm, e.aggressor_comm);
}

#[test]
fn entry_that_is_too_short_is_skipped() {
    let data = entry(&event(7));
    assert!(JitterEvent::from_bytes(&data[..63]).is_none());
    assert!(JitterEvent::from_bytes(&[]).is_none());
}

#[test]
fn entry_may_be_longer() {
    let mut data = entry(&event(7));
    data.push(1);
    assert_eq!(JitterEvent::from_bytes(&data).unwrap().timestamp_ns, 7);
}

#[test]
fn different_entries_give_different_events() {
    let mut data = entry(&event(7));
    data[16] = 5;
    let read = JitterEvent::from_bytes(&data).unwrap();
    assert_eq!(read.cpu_id, 5);
    assert_eq!(read.victim_pid, 100);
}

#[test]
fn event_as_text() {
    let json = JitterEventJson::from(&event(9));
    assert_eq!(json.timestamp_ns, 9);
    assert_eq!(json.duration_ns, 1_009);
    assert_eq!(json.cpu_id, 4);
    assert_eq!(json.victim_pid, 100);
    assert_eq!(json.aggressor_pid, 200);
    assert_eq!(json.victim_comm, "victim");
    assert_eq!(json.aggressor_comm, "kworker/4:1");
    let copy = json.clone();
    assert_eq!(copy.victim_comm, "victim");
    assert_eq!(copy.duration_ns, 1_009);
}

#[test]
fn new_buffer_is_empty() {
    let buffer = RollingBuffer::new();
    assert_eq!(buffer.len(), 0);
    assert!(buffer.recent_json().is_empty());
}

#[test]
fn buffer_lists_oldest_first() {
    let mut buffer = RollingBuffer::new();
    for n in 1..4 {
        buffer.push(event(n));
    }
    let times: Vec<u64> = buffer.recent_json().iter().map(|e| e.timestamp_ns).collect();
    assert_eq!(times, vec![1, 2, 3]);
    assert_eq!(buffer.len(), 3);
}

#[test]
fn full_buffer_drops_oldest() {
    let mut buffer = RollingBuffer::new();
    for n in 0..HISTORY_CAPACITY as u64 {
        buffer.push(event(n));
    }
    assert_eq!(buffer.recent_json()[0].timestamp_ns, 0);
    buffer.push(event(100));
    let recent = buffer.recent_json();
    assert_eq!(recent.len(), HISTORY_CAPACITY);
    assert_eq!(recent[0].timestamp_ns, 1);
    assert_eq!(recent[99].timestamp_ns, 100);
}

#[test]
fn buffer_holds_most_recent() {
    let mut buffer = RollingBuffer::new();
    for n in 0..257 {
        buffer.push(event(n));
    }
    let times: Vec<u64> = buffer.recent_json().iter().map(|e| e.timestamp_ns).collect();
    assert_eq!(times, (157..257).collect::<Vec<u64>>());
}

#[test]
fn decimal_notation() {
    for n in [0u64, 7, 10, 90, 100, 12_345_678_901, u64::MAX] {
        let mut text = String::from("n=");
        push_decimal(&mut text, n);
        assert_eq!(text, format!("n={}", n));
    }
}

#[test]
fn csv_line_of_an_event() {
    let json = JitterEventJson::from(&event(9));
    assert_eq!(csv_line(&json), "9,1009,4,100,200,victim,kworker/4:1");
}

#[test]
fn csv_lines_of_different_events_differ() {
    let a = JitterEventJson::from(&event(1));
    let b = JitterEventJson::from(&event(11));
    assert_ne!(csv_line(&a), csv_line(&b));
}

#[test]
fn csv_header_of_a_new_log() {
    assert_eq!(
        csv_header(),
        "timestamp_ns,duration_ns,cpu_id,victim_pid,aggressor_pid,victim_comm,aggressor_comm"
    );
    assert!(needs_header(Some(0)));
    assert!(needs_header(None));
    assert!(!needs_header(Some(81)));
}

#[test]
fn no_name_holds_a_nul() {
    let mut field = [0u8; 16];
    field[..4].copy_from_slice(&[b'a', 0xe2, 0x82, 0xff]);
    field[5] = b'b';
    let text = comm_to_string(&field);
    assert!(text.starts_with('a') && text.contains('\u{fffd}'));
    assert!(!text.contains('\0') && !text.contains('b'));
}
