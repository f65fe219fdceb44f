//! The most recent events.

use vstd::prelude::*;
use crate::event::{comm_to_string, JitterEvent, JitterEventJson, TASK_COMM_LEN};

verus! {

/// How many events the rolling buffer keeps.
pub const HISTORY_CAPACITY: usize = 100;

/// The last `n` items of a sequence, or all of them if there are fewer.
pub open spec fn keep_last<A>(items: Seq<A>, n: nat) -> Seq<A> {
    if items.len() > n {
        items.skip(items.len() - n)
    } else {
        items
    }
}

/// A ring of events: `head` is the slot that the next event goes to.
pub struct RollingBuffer {
    events: Vec<JitterEvent>,
    head: usize,
    count: usize,
}

impl View for RollingBuffer {
    type V = Seq<JitterEvent>;

    /// The events in the buffer, oldest first.
    open spec fn view(&self) -> Seq<JitterEvent> {
        Seq::new(
            self.filled(),
            |i: int| self.slots()[(self.start() + i) % (HISTORY_CAPACITY as int)],
        )
    }
}

/// An event with every field zero.
pub open spec fn is_blank(e: JitterEvent) -> bool {
    &&& e.timestamp_ns == 0
    &&& e.duration_ns == 0
    &&& e.cpu_id == 0
    &&& e.victim_pid == 0
    &&& e.aggressor_pid == 0
    &&& e.victim_comm@ == Seq::new(TASK_COMM_LEN as nat, |i: int| 0u8)
    &&& e.aggressor_comm@ == Seq::new(TASK_COMM_LEN as nat, |i: int| 0u8)
}

impl RollingBuffer {
    /// The slots of the ring, used or not.
    pub closed spec fn slots(self) -> Seq<JitterEvent> {
        self.events@
    }

    /// The slot that the next event goes to.
    pub closed spec fn next_slot(self) -> int {
        self.head as int
    }

    /// How many slots are in use.
    pub closed spec fn filled(self) -> nat {
        self.count as nat
    }

    /// The slot of the oldest event.
    pub open spec fn start(self) -> int {
        if self.filled() < HISTORY_CAPACITY {
            0
        } else {
            self.next_slot()
        }
    }

    /// The ring has all its slots, and fills up from the first before it wraps.
    pub open spec fn wf(self) -> bool {
        &&& self.slots().len() == HISTORY_CAPACITY
        &&& 0 <= self.next_slot() < HISTORY_CAPACITY
        &&& self.filled() <= HISTORY_CAPACITY
        &&& self.filled() < HISTORY_CAPACITY ==> self.next_slot() == self.filled()
    }

    /// Every slot is blank.
    pub open spec fn blank(self) -> bool {
        forall|i: int| 0 <= i < self.slots().len() ==> is_blank(#[trigger] self.slots()[i])
    }

    /// A buffer without events.
    pub fn new() -> (buffer: RollingBuffer)
        ensures
            buffer.wf(),
            buffer@ == Seq::<JitterEvent>::empty(),
            buffer.blank(),
            buffer.next_slot() == 0,
            buffer.filled() == 0,
    {
        let blank = JitterEvent {
            timestamp_ns: 0,
            duration_ns: 0,
            cpu_id: 0,
            victim_pid: 0,
            aggressor_pid: 0,
            victim_comm: [0u8; TASK_COMM_LEN],
            aggressor_comm: [0u8; TASK_COMM_LEN],
        };
        let buffer = RollingBuffer { events: vec![blank; HISTORY_CAPACITY], head: 0, count: 0 };
        assert(buffer@ =~= Seq::<JitterEvent>::empty());
        assert(blank.victim_comm@ =~= Seq::new(TASK_COMM_LEN as nat, |i: int| 0u8));
        assert(blank.aggressor_comm@ =~= Seq::new(TASK_COMM_LEN as nat, |i: int| 0u8));
        buffer
    }

    /// Adds an event; once the buffer is full, the oldest gives way. The event goes to the next
    /// slot, every other slot stays as it is, and the slot after it comes next.
    pub fn push(&mut self, event: JitterEvent)
        requires
            old(self).wf(),
        ensures
            final(self).wf(),
            final(self)@ == keep_last(old(self)@.push(event), HISTORY_CAPACITY as nat),
            final(self).slots() == old(self).slots().update(old(self).next_slot(), event),
            final(self).next_slot() == (old(self).next_slot() + 1) % (HISTORY_CAPACITY as int),
            final(self).filled() == if old(self).filled() < HISTORY_CAPACITY {
                old(self).filled() + 1
            } else {
                HISTORY_CAPACITY as nat
            },
    {
        self.events[self.head] = event;
        self.head = (self.head + 1) % HISTORY_CAPACITY;
        if self.count < HISTORY_CAPACITY {
            self.count += 1;
        }
        assert(self@ =~= keep_last(old(self)@.push(event), HISTORY_CAPACITY as nat));
    }

    /// The number of events in the buffer.
    pub fn len(&self) -> (count: usize)
        ensures
            count == self@.len(),
    {
        self.count
    }

    /// The events in the buffer as text, oldest first.
    pub fn recent_json(&self) -> (events: Vec<JitterEventJson>)
        requires
            self.wf(),
        ensures
            events@.len() == self@.len(),
            forall|i: int|
                0 <= i < events@.len() ==> (#[trigger] events@[i]).describes(self@[i]),
    {
        let start: usize = if self.count < HISTORY_CAPACITY {
            0
        } else {
            self.head
        };
        let mut events: Vec<JitterEventJson> = Vec::new();
        let mut i: usize = 0;
        while i < self.count
            invariant
                self.wf(),
                start == self.start(),
                i <= self.count,
                events@.len() == i,
                forall|j: int|
                    0 <= j < i ==> (#[trigger] events@[j]).describes(self@[j]),
            decreases self.count - i,
        {
            let idx: usize = (start + i) % HISTORY_CAPACITY;
            events.push(JitterEventJson::from(&self.events[idx]));
            i += 1;
        }
        events
    }
}

/// The contents of a buffer that held `start` after each of `events` has been pushed in turn.
pub open spec fn pushed_all(start: Seq<JitterEvent>, events: Seq<JitterEvent>) -> Seq<JitterEvent>
    decreases events.len(),
{
    if events.len() == 0 {
        start
    } else {
        keep_last(
            pushed_all(start, events.drop_last()).push(events.last()),
            HISTORY_CAPACITY as nat,
        )
    }
}

/// The buffer always holds the most recent events: whatever is pushed onto a new buffer, it ends
/// up with the last of them, in order, as many as it has room for.
pub proof fn law_buffer_holds_most_recent(events: Seq<JitterEvent>)
    ensures
        pushed_all(Seq::empty(), events) == keep_last(events, HISTORY_CAPACITY as nat),
    decreases events.len(),
{
    if events.len() > 0 {
        law_buffer_holds_most_recent(events.drop_last());
        assert(events.drop_last().push(events.last()) =~= events);
        let before = keep_last(events.drop_last(), HISTORY_CAPACITY as nat);
        assert(keep_last(before.push(events.last()), HISTORY_CAPACITY as nat) =~= keep_last(
            events,
            HISTORY_CAPACITY as nat,
        ));
    } else {
        assert(events =~= Seq::<JitterEvent>::empty());
    }
}

/// The last item kept is the last there was, and so on back, as many as `n` or as there are.
pub proof fn law_the_last_are_kept<A>(items: Seq<A>, n: nat, back: int)
    requires
        0 <= back < keep_last(items, n).len(),
    ensures
        keep_last(items, n).len() == if items.len() < n {
            items.len()
        } else {
            n
        },
        keep_last(items, n)[keep_last(items, n).len() - 1 - back] == items[items.len() - 1 - back],
{
}

/// The newest event stands in the slot before the next, the one before it in the slot before that,
/// and so on round the ring, for as many slots as are in use.
pub proof fn law_newest_event_stands_before_the_next_slot(buffer: RollingBuffer, back: int)
    requires
        buffer.wf(),
        0 <= back < buffer.filled(),
    ensures
        buffer@.len() == buffer.filled(),
        buffer@[buffer@.len() - 1 - back] == buffer.slots()[(buffer.next_slot() + 100 - 1 - back)
            % 100],
{
}

/// A pushed event is the newest; those before it follow in their order, and only a hundred stay.
pub proof fn law_pushed_event_is_the_newest(buffer: &mut RollingBuffer, event: JitterEvent)
    requires
        old(buffer).wf(),
        call_ensures(RollingBuffer::push, (buffer, event), ()),
    ensures
        final(buffer).wf(),
        final(buffer)@.len() == if old(buffer)@.len() < 100 {
            old(buffer)@.len() + 1
        } else {
            100
        },
        final(buffer)@.last() == event,
        forall|back: int|
            1 <= back < final(buffer)@.len() ==> #[trigger] final(buffer)@[final(buffer)@.len() - 1
                - back] == old(buffer)@[old(buffer)@.len() - back],
        final(buffer).slots().len() == old(buffer).slots().len(),
        final(buffer).slots()[old(buffer).next_slot()] == event,
        forall|i: int|
            0 <= i < 100 && i != old(buffer).next_slot() ==> #[trigger] final(buffer).slots()[i]
                == old(buffer).slots()[i],
{
}

/// A new buffer holds nothing: no event is in it, and each of its hundred slots is zero throughout.
pub proof fn law_new_buffer_holds_nothing(buffer: RollingBuffer, i: int)
    requires
        call_ensures(RollingBuffer::new, (), buffer),
        0 <= i < 100,
    ensures
        buffer@.len() == 0,
        buffer.slots().len() == 100,
        buffer.next_slot() == 0,
        buffer.filled() == 0,
        buffer.slots()[i].timestamp_ns == 0,
        buffer.slots()[i].duration_ns == 0,
        buffer.slots()[i].cpu_id == 0,
        buffer.slots()[i].victim_pid == 0,
        buffer.slots()[i].aggressor_pid == 0,
        forall|k: int| 0 <= k < 16 ==> #[trigger] buffer.slots()[i].victim_comm@[k] == 0,
        forall|k: int| 0 <= k < 16 ==> #[trigger] buffer.slots()[i].aggressor_comm@[k] == 0,
{
    assert(is_blank(buffer.slots()[i]));
}

/// The recent events come out oldest first, none left out, each with its own fields and names.
pub proof fn law_recent_events_come_out_in_order(
    buffer: RollingBuffer,
    count: usize,
    events: Vec<JitterEventJson>,
    i: int,
    victim: String,
    aggressor: String,
)
    requires
        call_ensures(RollingBuffer::len, (&buffer,), count),
        call_ensures(RollingBuffer::recent_json, (&buffer,), events),
        0 <= i < count,
        call_ensures(comm_to_string, (&buffer@[i].victim_comm,), victim),
        call_ensures(comm_to_string, (&buffer@[i].aggressor_comm,), aggressor),
    ensures
        count == buffer@.len(),
        events@.len() == count,
        events@[i].timestamp_ns == buffer@[i].timestamp_ns,
        events@[i].duration_ns == buffer@[i].duration_ns,
        events@[i].cpu_id == buffer@[i].cpu_id,
        events@[i].victim_pid == buffer@[i].victim_pid,
        events@[i].aggressor_pid == buffer@[i].aggressor_pid,
        events@[i].victim_comm@ == victim@,
        events@[i].aggressor_comm@ == aggressor@,
{
    assert(events@[i].describes(buffer@[i]));
}

} // verus!
