//! One observed mission event and its fixed nine-byte wire record.

use vstd::bytes::lemma_auto_spec_u64_to_from_le_bytes;
use vstd::bytes::spec_u64_to_le_bytes;
use vstd::bytes::u64_to_le_bytes;
use vstd::prelude::*;

verus! {

/// The fixed categories of mission events. The position of a category in this
/// declaration order is its wire ordinal (0 through 10); the order is part of
/// the wire contract and must not change.
#[derive(Copy, Clone, Debug, PartialEq, Eq, Structural)]
pub enum Type {
    ObjectCreated,
    ObjectKilled,
    Fired,
    MarkerCreated,
    MarkerDestroyed,
    MarkerUpdated,
    ObjectGetIn,
    ObjectGetOut,
    Custom,
    MissionStart,
    MissionEnd,
}

impl Type {
    /// The wire ordinal of this category.
    pub open spec fn spec_ordinal(self) -> u8 {
        match self {
            Type::ObjectCreated => 0,
            Type::ObjectKilled => 1,
            Type::Fired => 2,
            Type::MarkerCreated => 3,
            Type::MarkerDestroyed => 4,
            Type::MarkerUpdated => 5,
            Type::ObjectGetIn => 6,
            Type::ObjectGetOut => 7,
            Type::Custom => 8,
            Type::MissionStart => 9,
            Type::MissionEnd => 10,
        }
    }

    /// Returns the category's wire ordinal.
    pub fn ordinal(&self) -> (r: u8)
        ensures
            r == self.spec_ordinal(),
    {
        match self {
            Type::ObjectCreated => 0,
            Type::ObjectKilled => 1,
            Type::Fired => 2,
            Type::MarkerCreated => 3,
            Type::MarkerDestroyed => 4,
            Type::MarkerUpdated => 5,
            Type::ObjectGetIn => 6,
            Type::ObjectGetOut => 7,
            Type::Custom => 8,
            Type::MissionStart => 9,
            Type::MissionEnd => 10,
        }
    }
}

/// One observed event: the timestamp in whole seconds since mission start, and
/// the event's category.
#[derive(Copy, Clone, Debug)]
pub struct ArmaEvent(pub u64, pub Type);

impl ArmaEvent {
    /// The event's wire record: the timestamp as eight little-endian bytes,
    /// then the category's ordinal as one byte.
    pub open spec fn spec_bytes(self) -> Seq<u8> {
        spec_u64_to_le_bytes(self.0) + seq![self.1.spec_ordinal()]
    }

    /// Encodes the event as its nine-byte wire record.
    pub fn to_bytes_le(&self) -> (r: Vec<u8>)
        ensures
            r@ == self.spec_bytes(),
            r@.len() == 9,
    {
        let mut bytes = u64_to_le_bytes(self.0);
        bytes.push(self.1.ordinal());
        proof {
            lemma_auto_spec_u64_to_from_le_bytes();
        }
        bytes
    }
}

} // verus!
