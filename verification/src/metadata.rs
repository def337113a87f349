//! What travels with an event between fabrics.
use crate::event::EventId;
use vstd::prelude::*;

verus! {

/// Wire compatibility generation for one event identity.
#[derive(Clone, Copy, Debug, PartialEq, Eq, Structural, Hash)]
pub struct WireMajor(pub u16);

impl Default for WireMajor {
    fn default() -> (major: Self)
        ensures
            major.0 == 0,
    {
        WireMajor(0)
    }
}

/// Schema revision within one wire-major generation.
#[derive(Clone, Copy, Debug, PartialEq, Eq, Structural, Hash)]
pub struct SchemaRevision(pub u32);

impl Default for SchemaRevision {
    fn default() -> (revision: Self)
        ensures
            revision.0 == 0,
    {
        SchemaRevision(0)
    }
}

/// Stable origin identity used for deduplication and loop prevention.
#[derive(Clone, Copy, Debug, PartialEq, Eq, Hash)]
pub struct OriginId([u8; 16]);

impl OriginId {
    /// The wire bytes.
    pub closed spec fn bytes(self) -> Seq<u8> {
        self.0@
    }

    /// Origins are the same when their wire bytes are.
    pub broadcast proof fn lemma_origin(a: OriginId, b: OriginId)
        requires
            #[trigger] a.bytes() == #[trigger] b.bytes(),
        ensures
            a == b,
    {
        assert(a.0 =~= b.0);
    }

    pub broadcast proof fn lemma_origin_len(a: OriginId)
        ensures
            #[trigger] a.bytes().len() == 16,
    {
    }

    /// The zero origin for local-only messages and tests.
    #[must_use]
    pub fn zero() -> (origin: Self)
        ensures
            origin.bytes() == Seq::new(16, |i: int| 0u8),
    {
        let origin = OriginId([0u8;16]);
        assert(origin.bytes() =~= Seq::new(16, |i: int| 0u8));
        origin
    }

    /// Creates an origin from its wire bytes.
    #[must_use]
    pub fn new(bytes: [u8; 16]) -> (origin: Self)
        ensures
            origin.bytes() == bytes@,
    {
        OriginId(bytes)
    }

    /// Returns the wire bytes.
    #[must_use]
    pub fn as_bytes(self) -> (bytes: [u8; 16])
        ensures
            bytes@ == self.bytes(),
    {
        self.0
    }

    /// Tests whether two origins are the same.
    pub fn same(&self, other: &OriginId) -> (same: bool)
        ensures
            same == (*self == *other),
    {
        let mut index: usize = 0;
        while index < 16
            invariant
                index <= 16,
                forall|i: int| 0 <= i < index ==> self.0@[i] == other.0@[i],
            decreases 16 - index,
        {
            if self.0[index] != other.0[index] {
                return false;
            }
            index += 1;
        }
        assert(self.0 =~= other.0);
        true
    }
}

impl Default for OriginId {
    fn default() -> (origin: Self)
        ensures
            origin.bytes() == Seq::new(16, |i: int| 0u8),
    {
        OriginId::zero()
    }
}

/// Metadata carried with every routed event.
#[derive(Clone, Copy, Debug, PartialEq, Eq)]
pub struct EventMetadata {
    /// Origin process or producer identity.
    pub origin: OriginId,
    /// Monotonic sequence within the origin.
    pub sequence: u64,
    /// Origin clock reading in the origin's declared clock domain.
    pub origin_time: u64,
    /// Remaining hop/time budget. `None` means no expiry was requested.
    pub ttl: Option<u32>,
    /// Optional broker commit sequence for one fabric.
    pub fabric_sequence: Option<u64>,
}

impl EventMetadata {
    /// Creates metadata for one origin sequence.
    #[must_use]
    pub fn new(origin: OriginId, sequence: u64, origin_time: u64) -> (metadata: Self)
        ensures
            metadata == (EventMetadata {
                origin,
                sequence,
                origin_time,
                ttl: None,
                fabric_sequence: None,
            }),
    {
        EventMetadata { origin, sequence, origin_time, ttl: None, fabric_sequence: None }
    }

    /// Returns the deduplication key.
    #[must_use]
    pub fn dedup_key(self) -> (key: DedupKey)
        ensures
            key == (DedupKey { origin: self.origin, sequence: self.sequence }),
    {
        DedupKey { origin: self.origin, sequence: self.sequence }
    }

    /// Whether forwarding remains allowed.
    pub open spec fn may_hop(self) -> bool {
        self.ttl != Some(0u32)
    }

    /// The metadata after one hop.
    pub open spec fn hopped(self) -> EventMetadata {
        EventMetadata {
            ttl: match self.ttl {
                Some(ttl) => if ttl > 0 {
                    Some((ttl - 1) as u32)
                } else {
                    Some(ttl)
                },
                None => None,
            },
            ..self
        }
    }

    /// Decrements a finite TTL, returning whether forwarding remains allowed.
    pub fn consume_hop(&mut self) -> (allowed: bool)
        ensures
            allowed == old(self).may_hop(),
            *final(self) == old(self).hopped(),
    {
        match self.ttl {
            None => true,
            Some(ttl) => {
                if ttl == 0 {
                    false
                } else {
                    self.ttl = Some(ttl - 1);
                    true
                }
            },
        }
    }
}

impl Default for EventMetadata {
    fn default() -> (metadata: Self)
        ensures
            metadata.origin.bytes() == Seq::new(16, |i: int| 0u8),
            metadata == (EventMetadata {
                origin: metadata.origin,
                sequence: 0,
                origin_time: 0,
                ttl: None,
                fabric_sequence: None,
            }),
    {
        EventMetadata::new(OriginId::zero(), 0, 0)
    }
}

/// Stable deduplication and loop-prevention key.
#[derive(Clone, Copy, Debug, PartialEq, Eq, Hash)]
pub struct DedupKey {
    /// Origin identity.
    pub origin: OriginId,
    /// Origin-local sequence.
    pub sequence: u64,
}

/// Borrowed wire envelope. The payload codec owns the bytes.
#[derive(Clone, Copy, Debug, PartialEq, Eq)]
pub struct WireEnvelope<'a> {
    /// Event route identity.
    pub event: EventId,
    /// Breaking wire generation.
    pub wire_major: WireMajor,
    /// Compatible schema revision.
    pub schema_revision: SchemaRevision,
    /// Cross-fabric metadata.
    pub metadata: EventMetadata,
    /// Encoded payload bytes.
    pub payload: &'a [u8],
}

impl<'a> WireEnvelope<'a> {
    /// Creates a borrowed envelope for one typed event payload.
    #[must_use]
    pub fn new(
        event: EventId,
        wire_major: WireMajor,
        schema_revision: SchemaRevision,
        metadata: EventMetadata,
        payload: &'a [u8],
    ) -> (envelope: Self)
        ensures
            envelope == (WireEnvelope { event, wire_major, schema_revision, metadata, payload }),
    {
        WireEnvelope { event, wire_major, schema_revision, metadata, payload }
    }
}

} // verus!
