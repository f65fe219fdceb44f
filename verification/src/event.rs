//! One jitter event: its wire image, the task names in it and its text form.

use vstd::prelude::*;
use vstd::bytes::*;
use vstd::slice::slice_subrange;
use vstd::utf8::*;

verus! {

/// Length of the kernel's task name field.
pub const TASK_COMM_LEN: usize = 16;

/// Bytes of a ring buffer entry that carry an event's fields.
pub const EVENT_PAYLOAD: usize = 60;

/// Size of a whole ring buffer entry: the fields, then padding up to a multiple of eight.
pub const EVENT_SIZE: usize = 64;

/// A task was kept off its core: who ran instead, where, and for how long.
#[derive(Clone, Copy)]
pub struct JitterEvent {
    pub timestamp_ns: u64,
    pub duration_ns: u64,
    pub cpu_id: u32,
    pub victim_pid: u32,
    pub aggressor_pid: u32,
    pub victim_comm: [u8; TASK_COMM_LEN],
    pub aggressor_comm: [u8; TASK_COMM_LEN],
}

/// The fields of an event as they lie in memory, little-endian and in order.
pub open spec fn wire_image(e: JitterEvent) -> Seq<u8> {
    spec_u64_to_le_bytes(e.timestamp_ns) + spec_u64_to_le_bytes(e.duration_ns)
        + spec_u32_to_le_bytes(e.cpu_id) + spec_u32_to_le_bytes(e.victim_pid)
        + spec_u32_to_le_bytes(e.aggressor_pid) + e.victim_comm@ + e.aggressor_comm@
}

/// The bytes of a task name: those before the first NUL, or the whole field.
pub open spec fn comm_bytes(comm: Seq<u8>) -> Seq<u8> {
    match comm.index_of_first(0u8) {
        Some(n) => comm.take(n),
        None => comm,
    }
}

/// The text that `String::from_utf8_lossy` makes of a byte sequence.
pub uninterp spec fn lossy_utf8(bytes: Seq<u8>) -> Seq<char>;

/// A task name as text.
pub open spec fn comm_text(comm: Seq<u8>) -> Seq<char> {
    lossy_utf8(comm_bytes(comm))
}

/// `text` is the task name in a field: it ends before the first NUL and holds none. Of a name that is
/// not valid UTF-8 this says that the replacement character stands in it, but not where or how often.
pub open spec fn names(text: Seq<char>, comm: Seq<u8>) -> bool {
    let bytes = comm_bytes(comm);
    &&& text == comm_text(comm)
    &&& !text.contains('\0')
    &&& if valid_utf8(bytes) {
        text == decode_utf8(bytes)
    } else {
        text.contains('\u{fffd}')
    }
}

/// `String::from_utf8_lossy`: the text is a function of the bytes alone, valid UTF-8 comes out as
/// the characters that it encodes, and anything else leaves a replacement character in the text.
/// Nothing but replacement characters comes into the text that the bytes do not encode, so bytes
/// without NUL give a text without NUL. How invalid sequences are split into replacement characters
/// is left unsaid.
#[verifier::external_body]
fn utf8_lossy(bytes: &[u8]) -> (text: String)
    ensures
        text@ == lossy_utf8(bytes@),
        valid_utf8(bytes@) ==> text@ == decode_utf8(bytes@),
        !valid_utf8(bytes@) ==> text@.contains('\u{fffd}'),
        !bytes@.contains(0u8) ==> !text@.contains('\0'),
{
    String::from_utf8_lossy(bytes).into_owned()
}

/// The text of a task name field.
pub fn comm_to_string(comm: &[u8; TASK_COMM_LEN]) -> (text: String)
    ensures
        names(text@, comm@),
{
    let mut len: usize = 0;
    while len < TASK_COMM_LEN && comm[len] != 0
        invariant
            len <= TASK_COMM_LEN,
            forall|i: int| 0 <= i < len ==> comm@[i] != 0,
        decreases TASK_COMM_LEN - len,
    {
        len += 1;
    }
    proof {
        comm@.index_of_first_ensures(0u8);
        if len < TASK_COMM_LEN {
            assert(comm@.contains(comm@[len as int]));
        }
        assert(comm@.subrange(0, len as int) =~= comm_bytes(comm@));
    }
    utf8_lossy(slice_subrange(comm.as_slice(), 0, len))
}

/// Copies a task name field out of an entry.
pub(crate) fn comm_at(data: &[u8], at: usize) -> (comm: [u8; TASK_COMM_LEN])
    requires
        at + TASK_COMM_LEN <= data.len(),
    ensures
        comm@ == data@.subrange(at as int, at + TASK_COMM_LEN),
{
    let mut comm: [u8; TASK_COMM_LEN] = [0u8; TASK_COMM_LEN];
    let mut i: usize = 0;
    while i < TASK_COMM_LEN
        invariant
            at + TASK_COMM_LEN <= data.len(),
            i <= TASK_COMM_LEN,
            forall|j: int| 0 <= j < i ==> comm@[j] == data@[at + j],
        decreases TASK_COMM_LEN - i,
    {
        comm[i] = data[at + i];
        i += 1;
    }
    assert(comm@ =~= data@.subrange(at as int, at + TASK_COMM_LEN));
    comm
}

impl JitterEvent {
    /// Reads an event from a ring buffer entry. An undersized entry holds none.
    pub fn from_bytes(data: &[u8]) -> (event: Option<JitterEvent>)
        ensures
            event is Some <==> data@.len() >= EVENT_SIZE,
            event matches Some(e) ==> data@.take(EVENT_PAYLOAD as int) == wire_image(e),
    {
        if data.len() < EVENT_SIZE {
            return None;
        }
        let event = JitterEvent {
            timestamp_ns: u64_from_le_bytes(slice_subrange(data, 0, 8)),
            duration_ns: u64_from_le_bytes(slice_subrange(data, 8, 16)),
            cpu_id: u32_from_le_bytes(slice_subrange(data, 16, 20)),
            victim_pid: u32_from_le_bytes(slice_subrange(data, 20, 24)),
            aggressor_pid: u32_from_le_bytes(slice_subrange(data, 24, 28)),
            victim_comm: comm_at(data, 28),
            aggressor_comm: comm_at(data, 44),
        };
        proof {
            lemma_auto_spec_u64_to_from_le_bytes();
            lemma_auto_spec_u32_to_from_le_bytes();
            assert(data@.take(60) =~= data@.subrange(0, 8) + data@.subrange(8, 16)
                + data@.subrange(16, 20) + data@.subrange(20, 24) + data@.subrange(24, 28)
                + data@.subrange(28, 44) + data@.subrange(44, 60));
        }
        Some(event)
    }
}

/// A wire image belongs to one event only: nothing is lost between the probe and its reader.
pub proof fn law_wire_image_is_injective(a: JitterEvent, b: JitterEvent)
    requires
        wire_image(a) == wire_image(b),
    ensures
        a == b,
{
    lemma_auto_spec_u64_to_from_le_bytes();
    lemma_auto_spec_u32_to_from_le_bytes();
    let x = wire_image(a);
    let y = wire_image(b);
    assert(x.subrange(0, 8) =~= spec_u64_to_le_bytes(a.timestamp_ns));
    assert(y.subrange(0, 8) =~= spec_u64_to_le_bytes(b.timestamp_ns));
    assert(x.subrange(8, 16) =~= spec_u64_to_le_bytes(a.duration_ns));
    assert(y.subrange(8, 16) =~= spec_u64_to_le_bytes(b.duration_ns));
    assert(x.subrange(16, 20) =~= spec_u32_to_le_bytes(a.cpu_id));
    assert(y.subrange(16, 20) =~= spec_u32_to_le_bytes(b.cpu_id));
    assert(x.subrange(20, 24) =~= spec_u32_to_le_bytes(a.victim_pid));
    assert(y.subrange(20, 24) =~= spec_u32_to_le_bytes(b.victim_pid));
    assert(x.subrange(24, 28) =~= spec_u32_to_le_bytes(a.aggressor_pid));
    assert(y.subrange(24, 28) =~= spec_u32_to_le_bytes(b.aggressor_pid));
    assert(x.subrange(28, 44) =~= a.victim_comm@);
    assert(y.subrange(28, 44) =~= b.victim_comm@);
    assert(x.subrange(44, 60) =~= a.aggressor_comm@);
    assert(y.subrange(44, 60) =~= b.aggressor_comm@);
    assert(a.victim_comm =~= b.victim_comm);
    assert(a.aggressor_comm =~= b.aggressor_comm);
}

/// An event as the dashboard shows it, with its task names as text.
pub struct JitterEventJson {
    pub timestamp_ns: u64,
    pub duration_ns: u64,
    pub cpu_id: u32,
    pub victim_pid: u32,
    pub aggressor_pid: u32,
    pub victim_comm: String,
    pub aggressor_comm: String,
}

impl JitterEventJson {
    /// This is the text form of `e`.
    pub open spec fn describes(self, e: JitterEvent) -> bool {
        &&& self.timestamp_ns == e.timestamp_ns
        &&& self.duration_ns == e.duration_ns
        &&& self.cpu_id == e.cpu_id
        &&& self.victim_pid == e.victim_pid
        &&& self.aggressor_pid == e.aggressor_pid
        &&& names(self.victim_comm@, e.victim_comm@)
        &&& names(self.aggressor_comm@, e.aggressor_comm@)
    }
}

impl Clone for JitterEventJson {
    fn clone(&self) -> (copy: JitterEventJson)
        ensures
            copy == *self,
    {
        JitterEventJson {
            timestamp_ns: self.timestamp_ns,
            duration_ns: self.duration_ns,
            cpu_id: self.cpu_id,
            victim_pid: self.victim_pid,
            aggressor_pid: self.aggressor_pid,
            victim_comm: self.victim_comm.clone(),
            aggressor_comm: self.aggressor_comm.clone(),
        }
    }
}

// `from` is specified by its own `ensures`: a spec function cannot make the strings.
impl vstd::std_specs::convert::FromSpecImpl<&JitterEvent> for JitterEventJson {
    open spec fn obeys_from_spec() -> bool {
        false
    }

    open spec fn from_spec(e: &JitterEvent) -> JitterEventJson {
        arbitrary()
    }
}

impl From<&JitterEvent> for JitterEventJson {
    fn from(e: &JitterEvent) -> (json: JitterEventJson)
        ensures
            json.describes(*e),
    {
        JitterEventJson {
            timestamp_ns: e.timestamp_ns,
            duration_ns: e.duration_ns,
            cpu_id: e.cpu_id,
            victim_pid: e.victim_pid,
            aggressor_pid: e.aggressor_pid,
            victim_comm: comm_to_string(&e.victim_comm),
            aggressor_comm: comm_to_string(&e.aggressor_comm),
        }
    }
}

/// An entry is read by its layout: the two times at bytes 0 and 8, the core and the two task numbers
/// at 16, 20 and 24, the two names at 28 and 44, and nothing less than 64 bytes.
pub proof fn law_entry_is_read_by_its_layout(data: &[u8], event: Option<JitterEvent>)
    requires
        call_ensures(JitterEvent::from_bytes, (data,), event),
    ensures
        event is Some <==> data@.len() >= 64,
        event matches Some(e) ==> {
            &&& spec_u64_from_le_bytes(data@.subrange(0, 8)) == e.timestamp_ns
            &&& spec_u64_from_le_bytes(data@.subrange(8, 16)) == e.duration_ns
            &&& spec_u32_from_le_bytes(data@.subrange(16, 20)) == e.cpu_id
            &&& spec_u32_from_le_bytes(data@.subrange(20, 24)) == e.victim_pid
            &&& spec_u32_from_le_bytes(data@.subrange(24, 28)) == e.aggressor_pid
            &&& forall|i: int| 0 <= i < 16 ==> #[trigger] e.victim_comm@[i] == data@[28 + i]
            &&& forall|i: int| 0 <= i < 16 ==> #[trigger] e.aggressor_comm@[i] == data@[44 + i]
        },
{
    lemma_auto_spec_u64_to_from_le_bytes();
    lemma_auto_spec_u32_to_from_le_bytes();
    if let Some(e) = event {
        let x = wire_image(e);
        assert(x == data@.take(60));
        assert(data@.subrange(0, 8) =~= x.subrange(0, 8));
        assert(data@.subrange(8, 16) =~= x.subrange(8, 16));
        assert(data@.subrange(16, 20) =~= x.subrange(16, 20));
        assert(data@.subrange(20, 24) =~= x.subrange(20, 24));
        assert(data@.subrange(24, 28) =~= x.subrange(24, 28));
        assert(x.subrange(0, 8) =~= spec_u64_to_le_bytes(e.timestamp_ns));
        assert(x.subrange(8, 16) =~= spec_u64_to_le_bytes(e.duration_ns));
        assert(x.subrange(16, 20) =~= spec_u32_to_le_bytes(e.cpu_id));
        assert(x.subrange(20, 24) =~= spec_u32_to_le_bytes(e.victim_pid));
        assert(x.subrange(24, 28) =~= spec_u32_to_le_bytes(e.aggressor_pid));
        assert forall|i: int| 0 <= i < 16 implies #[trigger] e.victim_comm@[i] == data@[28 + i] by {
            assert(x[28 + i] == data@[28 + i]);
        }
        assert forall|i: int| 0 <= i < 16 implies #[trigger] e.aggressor_comm@[i] == data@[44
            + i] by {
            assert(x[44 + i] == data@[44 + i]);
        }
    }
}

/// Plain ASCII encodes itself.
proof fn lemma_ascii_encodes_itself(bytes: Seq<u8>)
    requires
        forall|i: int| 0 <= i < bytes.len() ==> #[trigger] bytes[i] < 0x80,
    ensures
        valid_utf8(bytes),
        decode_utf8(bytes).len() == bytes.len(),
        forall|i: int|
            0 <= i < bytes.len() ==> (#[trigger] decode_utf8(bytes)[i]) as int == bytes[i],
    decreases bytes.len(),
{
    if bytes.len() > 0 {
        let first = bytes[0];
        let rest = pop_first_scalar(bytes);
        assert(first < 0x80 ==> first & 0x7f == first) by (bit_vector);
        assert(rest =~= bytes.skip(1));
        lemma_ascii_encodes_itself(rest);
        let text = decode_utf8(bytes);
        assert forall|i: int| 0 <= i < bytes.len() implies (#[trigger] text[i]) as int
            == bytes[i] by {
            if i > 0 {
                assert(text[i] == decode_utf8(rest)[i - 1]);
                assert(rest[i - 1] == bytes[i]);
            }
        }
    }
}

/// A task name is what stands in its field before the first NUL, and nothing of what comes after:
/// `n` bytes, decoded as a whole. Plain ASCII comes out as it is.
pub proof fn law_name_ends_at_the_first_nul(comm: [u8; 16], text: String, n: int)
    requires
        call_ensures(comm_to_string, (&comm,), text),
        0 <= n <= 16,
        forall|i: int| 0 <= i < n ==> #[trigger] comm@[i] != 0,
        n < 16 ==> comm@[n] == 0,
    ensures
        text@ == lossy_utf8(comm@.take(n)),
        valid_utf8(comm@.take(n)) ==> text@ == decode_utf8(comm@.take(n)),
        !valid_utf8(comm@.take(n)) ==> text@.contains('\u{fffd}'),
        (forall|i: int| 0 <= i < n ==> #[trigger] comm@[i] < 0x80) ==> text@.len() == n && (
        forall|i: int| 0 <= i < n ==> (#[trigger] text@[i]) as int == comm@[i]),
        !text@.contains('\0'),
{
    let field = comm@;
    field.index_of_first_ensures(0u8);
    if n < 16 {
        assert(field.contains(field[n]));
        let k = field.index_of_first(0u8)->0;
        if k < n {
            assert(field[k] != 0);
        }
        assert(k == n);
    } else {
        if field.contains(0u8) {
            let k = choose|k: int| 0 <= k < field.len() && field[k] == 0u8;
            assert(field[k] != 0);
        }
        assert(field.take(16) =~= field);
    }
    assert(comm_bytes(field) == field.take(n));
    if forall|i: int| 0 <= i < n ==> #[trigger] field[i] < 0x80 {
        lemma_ascii_encodes_itself(field.take(n));
    }
}

/// The text form of an event carries each of its fields under its own name, and the two task names as
/// they are read alone.
pub proof fn law_text_form_keeps_every_field(
    e: JitterEvent,
    json: JitterEventJson,
    victim: String,
    aggressor: String,
)
    requires
        call_ensures(<JitterEventJson as From<&JitterEvent>>::from, (&e,), json),
        call_ensures(comm_to_string, (&e.victim_comm,), victim),
        call_ensures(comm_to_string, (&e.aggressor_comm,), aggressor),
    ensures
        json.timestamp_ns == e.timestamp_ns,
        json.duration_ns == e.duration_ns,
        json.cpu_id == e.cpu_id,
        json.victim_pid == e.victim_pid,
        json.aggressor_pid == e.aggressor_pid,
        json.victim_comm@ == victim@,
        json.aggressor_comm@ == aggressor@,
{
}

/// A copy of a text form says the same.
pub proof fn law_copy_says_the_same(json: JitterEventJson, copy: JitterEventJson)
    requires
        call_ensures(<JitterEventJson as Clone>::clone, (&json,), copy),
    ensures
        copy.timestamp_ns == json.timestamp_ns,
        copy.duration_ns == json.duration_ns,
        copy.cpu_id == json.cpu_id,
        copy.victim_pid == json.victim_pid,
        copy.aggressor_pid == json.aggressor_pid,
        copy.victim_comm@ == json.victim_comm@,
        copy.aggressor_comm@ == json.aggressor_comm@,
{
}

} // verus!
