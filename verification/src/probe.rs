//! What the probe does at a context switch.

use vstd::prelude::*;
use vstd::bytes::*;
use vstd::slice::slice_subrange;
use crate::event::{comm_at, JitterEvent, TASK_COMM_LEN};
use crate::plan::MonitorPlan;

verus! {

/// The threshold in nanoseconds where none is set.
pub const DEFAULT_THRESHOLD_NS: u64 = 1_000;

/// Where the record of a context switch has the name of the task that leaves the core.
pub const PREV_COMM_OFFSET: usize = 8;

/// Where it has the number of the task that leaves the core.
pub const PREV_PID_OFFSET: usize = 24;

/// Where it has the number of the task that takes the core.
pub const NEXT_PID_OFFSET: usize = 56;

/// How much of the record the probe needs.
pub const SWITCH_RECORD_SIZE: usize = 60;

/// What the record of a context switch tells the probe. After a header of eight bytes it holds:
///   +0:  prev_comm[16]    +16: prev_pid (i32)   +20: prev_prio (i32)
///   +24: prev_state (i64) +32: next_comm[16]    +48: next_pid (i32)
pub struct Switch {
    pub prev_pid: i32,
    pub prev_comm: [u8; TASK_COMM_LEN],
    pub next_pid: i32,
}

/// The bytes of a task number, little-endian.
pub open spec fn pid_bytes(pid: i32) -> Seq<u8> {
    spec_u32_to_le_bytes(pid as u32)
}

/// Reads a task number.
fn pid_at(record: &[u8], at: usize) -> (pid: i32)
    requires
        at + 4 <= record.len(),
    ensures
        pid_bytes(pid) == record@.subrange(at as int, at + 4),
{
    let bits: u32 = u32_from_le_bytes(slice_subrange(record, at, at + 4));
    let pid: i32 = #[verifier::truncate] (bits as i32);
    proof {
        lemma_auto_spec_u32_to_from_le_bytes();
        assert((bits as i32) as u32 == bits) by (bit_vector);
    }
    pid
}

/// Reads the record of a context switch. One that is too short tells nothing.
pub fn parse_switch(record: &[u8]) -> (switch: Option<Switch>)
    ensures
        switch is Some <==> record@.len() >= SWITCH_RECORD_SIZE,
        switch matches Some(s) ==> {
            &&& s.prev_comm@ == record@.subrange(PREV_COMM_OFFSET as int, PREV_PID_OFFSET as int)
            &&& pid_bytes(s.prev_pid) == record@.subrange(
                PREV_PID_OFFSET as int,
                PREV_PID_OFFSET + 4,
            )
            &&& pid_bytes(s.next_pid) == record@.subrange(
                NEXT_PID_OFFSET as int,
                NEXT_PID_OFFSET + 4,
            )
        },
{
    if record.len() < SWITCH_RECORD_SIZE {
        return None;
    }
    Some(
        Switch {
            prev_pid: pid_at(record, PREV_PID_OFFSET),
            prev_comm: comm_at(record, PREV_COMM_OFFSET),
            next_pid: pid_at(record, NEXT_PID_OFFSET),
        },
    )
}

/// What the probe reads at a context switch. A field that could not be read is `None`.
pub struct Reading {
    /// The core on which the switch takes place.
    pub cpu: u32,
    /// The core is one of those to monitor.
    pub core_monitored: bool,
    pub now: u64,
    /// The task that leaves the core.
    pub prev_pid: Option<i32>,
    pub prev_comm: Option<[u8; TASK_COMM_LEN]>,
    /// The task that takes the core.
    pub next_pid: Option<i32>,
    /// What the previous switch on this core has left: its time, and the task that left the core.
    pub start_ts: Option<u64>,
    pub victim_pid: Option<u32>,
    pub victim_comm: Option<[u8; TASK_COMM_LEN]>,
    /// The threshold that is set.
    pub threshold_ns: Option<u64>,
    /// The task that left at the previous switch is one of those to monitor.
    pub pid_match: bool,
    /// All tasks are to be monitored.
    pub no_pid_filter: bool,
}

/// What the probe leaves for the next switch on the core, and the event to report, if any.
pub struct Step {
    pub start_ts: u64,
    pub victim_pid: u32,
    pub victim_comm: [u8; TASK_COMM_LEN],
    pub event: Option<JitterEvent>,
}

impl Reading {
    /// Everything that the probe needs could be read.
    pub open spec fn complete(self) -> bool {
        &&& self.prev_pid is Some
        &&& self.prev_comm is Some
        &&& self.next_pid is Some
        &&& self.start_ts is Some
        &&& self.victim_pid is Some
        &&& self.victim_comm is Some
    }

    /// How long the task of the previous switch was off the core.
    pub open spec fn duration(self) -> u64 {
        if self.now < self.start_ts->0 {
            0
        } else {
            (self.now - self.start_ts->0) as u64
        }
    }

    /// The threshold that applies.
    pub open spec fn threshold(self) -> u64 {
        match self.threshold_ns {
            Some(ns) => ns,
            None => DEFAULT_THRESHOLD_NS,
        }
    }

    /// The task that left at the previous switch comes back, after long enough, and is monitored.
    pub open spec fn reportable(self) -> bool {
        &&& self.start_ts->0 > 0
        &&& self.next_pid->0 as u32 == self.victim_pid->0
        &&& self.duration() >= self.threshold()
        &&& self.no_pid_filter || self.pid_match
    }

    /// The event to report: the task that comes back is the victim, the one that leaves the core
    /// to it is the aggressor.
    pub open spec fn event(self) -> JitterEvent {
        JitterEvent {
            timestamp_ns: self.now,
            duration_ns: self.duration(),
            cpu_id: self.cpu,
            victim_pid: self.victim_pid->0,
            aggressor_pid: self.prev_pid->0 as u32,
            victim_comm: self.victim_comm->0,
            aggressor_comm: self.prev_comm->0,
        }
    }

    /// What follows from a complete reading.
    pub open spec fn step(self) -> Step {
        Step {
            start_ts: self.now,
            victim_pid: self.prev_pid->0 as u32,
            victim_comm: self.prev_comm->0,
            event: if self.reportable() {
                Some(self.event())
            } else {
                None
            },
        }
    }

    /// What the probe makes of a reading: nothing on other cores, and an error if something could
    /// not be read.
    pub open spec fn outcome(self) -> Result<Option<Step>, i64> {
        if !self.core_monitored {
            Ok(None)
        } else if !self.complete() {
            Err(1)
        } else {
            Ok(Some(self.step()))
        }
    }
}

/// Decides what to do at a context switch.
pub fn try_jittersnoop(reading: &Reading) -> (outcome: Result<Option<Step>, i64>)
    ensures
        outcome == reading.outcome(),
{
    if !reading.core_monitored {
        return Ok(None);
    }
    match (
        reading.prev_pid,
        reading.next_pid,
        reading.prev_comm,
        reading.start_ts,
        reading.victim_pid,
        reading.victim_comm,
    ) {
        (
            Some(prev_pid),
            Some(next_pid),
            Some(prev_comm),
            Some(recorded_ts),
            Some(recorded_pid),
            Some(recorded_comm),
        ) => {
            let mut event: Option<JitterEvent> = None;
            if recorded_ts > 0 && (#[verifier::truncate] (next_pid as u32)) == recorded_pid {
                let duration: u64 = reading.now.saturating_sub(recorded_ts);
                let threshold: u64 = match reading.threshold_ns {
                    Some(ns) => ns,
                    None => DEFAULT_THRESHOLD_NS,
                };
                if duration >= threshold && (reading.no_pid_filter || reading.pid_match) {
                    event = Some(
                        JitterEvent {
                            timestamp_ns: reading.now,
                            duration_ns: duration,
                            cpu_id: reading.cpu,
                            victim_pid: recorded_pid,
                            aggressor_pid: #[verifier::truncate] (prev_pid as u32),
                            victim_comm: recorded_comm,
                            aggressor_comm: prev_comm,
                        },
                    );
                }
            }
            Ok(
                Some(
                    Step {
                        start_ts: reading.now,
                        victim_pid: #[verifier::truncate] (prev_pid as u32),
                        victim_comm: prev_comm,
                        event,
                    },
                ),
            )
        },
        _ => Err(1),
    }
}

/// The status that the probe returns to the kernel: zero, or one after an error.
pub fn jittersnoop(outcome: &Result<Option<Step>, i64>) -> (status: u32)
    ensures
        status == if outcome is Ok {
            0u32
        } else {
            1u32
        },
{
    match outcome {
        Ok(_) => 0,
        Err(_) => 1,
    }
}

/// The second reading comes right after the first on its core: it finds what the first has left.
pub open spec fn follows(first: Reading, second: Reading) -> bool {
    &&& second.cpu == first.cpu
    &&& second.start_ts == Some(first.step().start_ts)
    &&& second.victim_pid == Some(first.step().victim_pid)
    &&& second.victim_comm == Some(first.step().victim_comm)
}

/// An interruption is reported: if a monitored task leaves its core and comes back at the very next
/// switch, no sooner than the threshold, there is an event. It names that task as the victim, the
/// task in between as the aggressor, and the time between the two switches as the duration.
pub proof fn law_interruption_is_reported(first: Reading, second: Reading)
    requires
        first.core_monitored && first.complete() && first.now > 0,
        second.core_monitored && second.complete(),
        follows(first, second),
        second.next_pid == first.prev_pid,
        first.now <= second.now,
        second.now - first.now >= second.threshold(),
        second.no_pid_filter || second.pid_match,
    ensures
        second.outcome() matches Ok(Some(step)) && step.event == Some(
            JitterEvent {
                timestamp_ns: second.now,
                duration_ns: (second.now - first.now) as u64,
                cpu_id: first.cpu,
                victim_pid: first.prev_pid->0 as u32,
                aggressor_pid: second.prev_pid->0 as u32,
                victim_comm: first.prev_comm->0,
                aggressor_comm: second.prev_comm->0,
            },
        ),
{
}

/// The reading was taken with the settings of this plan.
pub open spec fn under_plan(reading: Reading, plan: MonitorPlan) -> bool {
    &&& reading.core_monitored == plan.cores@.contains(reading.cpu)
    &&& reading.threshold_ns == Some(plan.threshold_ns)
    &&& reading.victim_pid is Some ==> reading.pid_match == plan.pid_entries().contains(
        reading.victim_pid->0,
    )
    &&& reading.no_pid_filter == (plan.pids@.len() == 0)
}

/// Only what was asked for is reported: an event comes from a monitored core, lasted at least the
/// threshold, and hit one of the listed tasks, or any if none is listed.
pub proof fn law_only_monitored_is_reported(reading: Reading, plan: MonitorPlan, step: Step)
    requires
        under_plan(reading, plan),
        reading.outcome() == Ok::<Option<Step>, i64>(Some(step)),
    ensures
        step.event matches Some(e) ==> {
            &&& plan.cores@.contains(e.cpu_id)
            &&& e.duration_ns >= plan.threshold_ns
            &&& plan.pids@.len() == 0 || plan.pids@.contains(e.victim_pid)
        },
{
}

/// What was asked for is reported: every listed task, or any if none is listed, that comes back to a
/// monitored core at the switch after it left, no sooner than the threshold.
pub proof fn law_monitored_is_reported(reading: Reading, plan: MonitorPlan)
    requires
        under_plan(reading, plan),
        reading.complete(),
        plan.cores@.contains(reading.cpu),
        plan.pids@.len() == 0 || plan.pids@.contains(reading.victim_pid->0),
        reading.start_ts->0 > 0,
        reading.next_pid->0 as u32 == reading.victim_pid->0,
        reading.duration() >= plan.threshold_ns,
    ensures
        reading.outcome() matches Ok(Some(step)) && step.event == Some(reading.event()),
{
}

/// A task is reported as a victim only if it came back: where there is an event, the task that takes
/// the core is the one that left it at the switch before, that switch was seen, and the event carries
/// what was read at the two switches.
pub proof fn law_only_a_task_that_comes_back_is_reported(
    reading: Reading,
    outcome: Result<Option<Step>, i64>,
    step: Step,
    event: JitterEvent,
)
    requires
        call_ensures(try_jittersnoop, (&reading,), outcome),
        outcome == Ok::<Option<Step>, i64>(Some(step)),
        step.event == Some(event),
    ensures
        reading.core_monitored,
        reading.next_pid matches Some(next) && next as u32 == event.victim_pid,
        reading.victim_pid == Some(event.victim_pid),
        reading.victim_comm == Some(event.victim_comm),
        reading.prev_pid matches Some(prev) && prev as u32 == event.aggressor_pid,
        reading.prev_comm == Some(event.aggressor_comm),
        reading.start_ts matches Some(left) && left > 0 && (left <= reading.now
            ==> event.duration_ns == reading.now - left) && (left > reading.now
            ==> event.duration_ns == 0),
        event.timestamp_ns == reading.now,
        event.cpu_id == reading.cpu,
        reading.threshold_ns matches Some(ns) ==> event.duration_ns >= ns,
        reading.threshold_ns is None ==> event.duration_ns >= 1_000,
        reading.no_pid_filter || reading.pid_match,
{
}

/// A task that comes back is reported unless something speaks against it: it was off the core for
/// less than the threshold, or it is not monitored.
pub proof fn law_a_task_that_comes_back_is_reported(
    reading: Reading,
    outcome: Result<Option<Step>, i64>,
    left: u64,
    pid: i32,
    threshold: u64,
)
    requires
        call_ensures(try_jittersnoop, (&reading,), outcome),
        reading.core_monitored,
        reading.prev_pid is Some,
        reading.prev_comm is Some,
        reading.victim_comm is Some,
        reading.next_pid == Some(pid),
        reading.victim_pid == Some(pid as u32),
        reading.start_ts == Some(left),
        left > 0,
        reading.threshold_ns == Some(threshold) || (reading.threshold_ns is None && threshold
            == 1_000),
        reading.now >= left + threshold || threshold == 0,
        reading.no_pid_filter || reading.pid_match,
    ensures
        outcome matches Ok(Some(step)) && step.event is Some,
{
}

/// Whatever is reported, the probe leaves for the next switch on the core the time of this one and
/// the task that leaves now; it fails only if something could not be read, and it does nothing on
/// other cores.
pub proof fn law_the_leaving_task_is_remembered(
    reading: Reading,
    outcome: Result<Option<Step>, i64>,
    status: u32,
)
    requires
        call_ensures(try_jittersnoop, (&reading,), outcome),
        call_ensures(jittersnoop, (&outcome,), status),
    ensures
        !reading.core_monitored ==> outcome == Ok::<Option<Step>, i64>(None),
        outcome is Err <==> reading.core_monitored && (reading.prev_pid is None
            || reading.prev_comm is None || reading.next_pid is None || reading.start_ts is None
            || reading.victim_pid is None || reading.victim_comm is None),
        outcome matches Err(e) ==> e == 1,
        status == 0 <==> outcome is Ok,
        status == 1 <==> outcome is Err,
        outcome matches Ok(Some(step)) ==> {
            &&& reading.core_monitored
            &&& step.start_ts == reading.now
            &&& reading.prev_pid matches Some(prev) && prev as u32 == step.victim_pid
            &&& reading.prev_comm == Some(step.victim_comm)
        },
        outcome matches Ok(None) ==> !reading.core_monitored,
{
}

/// The record of a switch is read by its layout: the name at byte 8, the two task numbers at bytes
/// 24 and 56, and nothing less than 60 bytes.
pub proof fn law_switch_record_is_read_by_its_layout(record: &[u8], switch: Option<Switch>)
    requires
        call_ensures(parse_switch, (record,), switch),
    ensures
        switch is Some <==> record@.len() >= 60,
        switch matches Some(s) ==> {
            &&& forall|i: int| 0 <= i < 16 ==> #[trigger] s.prev_comm@[i] == record@[8 + i]
            &&& spec_u32_from_le_bytes(record@.subrange(24, 28)) == s.prev_pid as u32
            &&& spec_u32_from_le_bytes(record@.subrange(56, 60)) == s.next_pid as u32
        },
{
    lemma_auto_spec_u32_to_from_le_bytes();
    if let Some(s) = switch {
        assert(spec_u32_to_le_bytes(s.prev_pid as u32) == record@.subrange(24, 28));
        assert(spec_u32_to_le_bytes(s.next_pid as u32) == record@.subrange(56, 60));
        assert forall|i: int| 0 <= i < 16 implies #[trigger] s.prev_comm@[i] == record@[8 + i] by {
            assert(s.prev_comm@ == record@.subrange(8, 24));
        }
    }
}

} // verus!
