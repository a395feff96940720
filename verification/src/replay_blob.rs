//! The replay blob: a versioned binary container holding three 128-bit
//! identifiers and an ordered timeline of encoded mission events.
//!
//! Serialized layout, in order: one version byte (always 1), the replay,
//! mission and history identifiers (sixteen little-endian bytes each), then
//! each event's nine-byte record in append order, with no separators. The
//! event count is implicit in the total length.

use crate::arma_event::ArmaEvent;
use vstd::prelude::*;

verus! {

/// The bytes of the wire records of `events`, concatenated in order.
pub open spec fn records_of(events: Seq<ArmaEvent>) -> Seq<u8>
    decreases events.len(),
{
    if events.len() == 0 {
        Seq::<u8>::empty()
    } else {
        records_of(events.drop_last()) + events.last().spec_bytes()
    }
}

/// Each event record is nine bytes, so a timeline of `n` events contributes
/// exactly `9 * n` bytes.
pub proof fn lemma_records_of_len(events: Seq<ArmaEvent>)
    ensures
        records_of(events).len() == 9 * events.len(),
    decreases events.len(),
{
    if events.len() > 0 {
        lemma_records_of_len(events.drop_last());
        vstd::bytes::lemma_auto_spec_u64_to_from_le_bytes();
    }
}

/// Appending one event extends the record bytes by exactly that event's
/// nine-byte record; nothing before it moves.
pub proof fn lemma_records_of_push(events: Seq<ArmaEvent>, event: ArmaEvent)
    ensures
        records_of(events.push(event)) == records_of(events) + event.spec_bytes(),
{
    assert(events.push(event).drop_last() =~= events);
    assert(events.push(event).last() == event);
}

/// Appending an event and then serializing yields the serialization of the
/// container before the append, followed by exactly that event's nine-byte
/// record: event order survives serialization, and each event adds nine
/// bytes.
pub proof fn lemma_serialize_append(before: ReplayBlob, after: ReplayBlob, event: ArmaEvent)
    requires
        after.spec_version() == before.spec_version(),
        after.spec_replay_uuid() == before.spec_replay_uuid(),
        after.spec_mission_uuid() == before.spec_mission_uuid(),
        after.spec_history_uuid() == before.spec_history_uuid(),
        after.spec_events() == before.spec_events().push(event),
    ensures
        after.spec_serialized() == before.spec_serialized() + event.spec_bytes(),
{
    lemma_records_of_push(before.spec_events(), event);
    assert(after.spec_serialized() =~= before.spec_serialized() + event.spec_bytes());
}

/// A container for one mission's event timeline: a format version, three
/// random 128-bit identifiers fixed at creation, and the events in
/// observation order.
pub struct ReplayBlob {
    version: u8,
    replay_uuid: [u8; 16],
    mission_uuid: [u8; 16],
    history_uuid: [u8; 16],
    events: Vec<ArmaEvent>,
}

/// An identifier value of the uuid crate, opaque here: it only carries
/// randomness from the generator to its byte form.
#[verifier::external_type_specification]
#[verifier::external_body]
pub struct ExUuid(uuid::Uuid);

/// Relies on uuid::Uuid::new_v4: a freshly drawn random 128-bit identifier.
/// The value is random, so nothing is promised of it; the call fails only if
/// the operating system's randomness source does.
#[verifier::external_body]
fn new_random_uuid() -> (u: uuid::Uuid) {
    uuid::Uuid::new_v4()
}

/// Relies on uuid::Uuid::to_bytes_le: the identifier's sixteen bytes, with
/// each of its three leading fields flipped to little-endian order.
#[verifier::external_body]
fn uuid_bytes_le(u: &uuid::Uuid) -> (r: [u8; 16]) {
    u.to_bytes_le()
}

/// A fresh random identifier, as the sixteen bytes the container stores.
fn fresh_id_le() -> (r: [u8; 16]) {
    let u = new_random_uuid();
    uuid_bytes_le(&u)
}

impl ReplayBlob {
    /// The container's format version byte.
    pub closed spec fn spec_version(self) -> u8 {
        self.version
    }

    /// The replay identifier's sixteen bytes.
    pub closed spec fn spec_replay_uuid(self) -> Seq<u8> {
        self.replay_uuid@
    }

    /// The mission identifier's sixteen bytes.
    pub closed spec fn spec_mission_uuid(self) -> Seq<u8> {
        self.mission_uuid@
    }

    /// The history identifier's sixteen bytes.
    pub closed spec fn spec_history_uuid(self) -> Seq<u8> {
        self.history_uuid@
    }

    /// The event timeline, in append order.
    pub closed spec fn spec_events(self) -> Seq<ArmaEvent> {
        self.events@
    }

    /// A well-formed container carries format version 1.
    pub open spec fn wf(self) -> bool {
        self.spec_version() == 1
    }

    /// The container's serialized bytes: the version byte, the three
    /// identifiers in declared order, then every event record in append
    /// order.
    pub open spec fn spec_serialized(self) -> Seq<u8> {
        seq![self.spec_version()] + self.spec_replay_uuid() + self.spec_mission_uuid()
            + self.spec_history_uuid() + records_of(self.spec_events())
    }

    /// Creates an empty container with format version 1 and three freshly
    /// generated random identifiers.
    pub fn new() -> (r: ReplayBlob)
        ensures
            r.wf(),
            r.spec_events() == Seq::<ArmaEvent>::empty(),
            r.spec_replay_uuid().len() == 16,
            r.spec_mission_uuid().len() == 16,
            r.spec_history_uuid().len() == 16,
    {
        ReplayBlob {
            version: 1,
            replay_uuid: fresh_id_le(),
            mission_uuid: fresh_id_le(),
            history_uuid: fresh_id_le(),
            events: Vec::new(),
        }
    }

    /// Adds one event to the end of the timeline; the version and the
    /// identifiers do not change.
    pub fn append(&mut self, event: ArmaEvent)
        ensures
            final(self).spec_events() == old(self).spec_events().push(event),
            final(self).spec_version() == old(self).spec_version(),
            final(self).spec_replay_uuid() == old(self).spec_replay_uuid(),
            final(self).spec_mission_uuid() == old(self).spec_mission_uuid(),
            final(self).spec_history_uuid() == old(self).spec_history_uuid(),
    {
        self.events.push(event);
    }

    /// The replay identifier's bytes, for naming the stored artifact.
    pub fn replay_uuid(&self) -> (r: [u8; 16])
        ensures
            r@ == self.spec_replay_uuid(),
    {
        self.replay_uuid
    }

    /// The mission identifier's bytes.
    pub fn mission_uuid(&self) -> (r: [u8; 16])
        ensures
            r@ == self.spec_mission_uuid(),
    {
        self.mission_uuid
    }

    /// The history identifier's bytes.
    pub fn history_uuid(&self) -> (r: [u8; 16])
        ensures
            r@ == self.spec_history_uuid(),
    {
        self.history_uuid
    }

    /// The number of events appended so far.
    pub fn event_count(&self) -> (r: usize)
        ensures
            r == self.spec_events().len(),
    {
        self.events.len()
    }

    /// Serializes the container into its binary form. The result always
    /// holds exactly `49 + 9 * n` bytes for `n` events.
    pub fn serialize(&self) -> (r: Vec<u8>)
        ensures
            r@ == self.spec_serialized(),
            r@.len() == 49 + 9 * self.spec_events().len(),
    {
        let mut out: Vec<u8> = Vec::new();
        out.push(self.version);
        push_id(&mut out, &self.replay_uuid);
        push_id(&mut out, &self.mission_uuid);
        push_id(&mut out, &self.history_uuid);
        assert(out@ =~= seq![self.spec_version()] + self.spec_replay_uuid()
            + self.spec_mission_uuid() + self.spec_history_uuid());
        let ghost header = out@;
        let mut j: usize = 0;
        while j < self.events.len()
            invariant
                j <= self.events.len(),
                out@ == header + records_of(self.events@.take(j as int)),
            decreases self.events.len() - j,
        {
            let mut record = self.events[j].to_bytes_le();
            out.append(&mut record);
            proof {
                assert(self.events@.take(j + 1).drop_last() =~= self.events@.take(j as int));
                assert(self.events@.take(j + 1).last() == self.events@[j as int]);
            }
            j += 1;
        }
        proof {
            assert(self.events@.take(self.events@.len() as int) =~= self.events@);
            lemma_records_of_len(self.events@);
        }
        out
    }
}

/// Appends the sixteen bytes of one identifier to `out`.
fn push_id(out: &mut Vec<u8>, id: &[u8; 16])
    ensures
        final(out)@ == old(out)@ + id@,
{
    let mut k: usize = 0;
    while k < 16
        invariant
            k <= 16,
            out@ == old(out)@ + id@.take(k as int),
        decreases 16 - k,
    {
        out.push(id[k]);
        proof {
            assert(id@.take(k + 1) =~= id@.take(k as int).push(id@[k as int]));
        }
        k += 1;
    }
    proof {
        assert(id@.take(16) =~= id@);
    }
}

} // verus!
