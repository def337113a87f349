//! The header that precedes an encoded payload, and payload codecs.
use crate::bytes::{
    from_le, get_le, le_bytes, lemma_le_len, lemma_le_round_trip, lemma_le_unique, lemma_next_part,
    lemma_spans, put_bytes, put_le,
};
use crate::event::{EventId, EventSpec};
use crate::metadata::{EventMetadata, OriginId, SchemaRevision, WireEnvelope, WireMajor};
use vstd::prelude::*;
use vstd::string::StringExecFns;

verus! {

/// Fixed byte length of an encoded envelope header.
pub const ENVELOPE_HEADER_BYTES: usize = 70;

/// Failure while encoding or decoding one event payload.
#[derive(Clone, Copy, Debug, PartialEq, Eq, Structural)]
#[non_exhaustive]
pub enum WireError {
    /// The caller-provided output buffer is too small.
    BufferTooSmall,
    /// The bytes do not describe a valid payload for the event schema.
    InvalidPayload,
    /// The reader does not support the supplied schema revision.
    UnsupportedRevision,
    /// The envelope header is shorter than the protocol requires.
    Truncated,
    /// A header contains a value outside the protocol's valid range.
    InvalidHeader,
}

impl WireError {
    /// The text that [`Self::message`] gives.
    pub open spec fn text(self) -> Seq<char> {
        match self {
            WireError::BufferTooSmall => "output buffer is too small"@,
            WireError::InvalidPayload => "payload is invalid"@,
            WireError::UnsupportedRevision => "schema revision is unsupported"@,
            WireError::Truncated => "wire envelope is truncated"@,
            WireError::InvalidHeader => "wire envelope header is invalid"@,
        }
    }

    /// Describes the failure.
    pub fn message(&self) -> (message: String)
        ensures
            message@ == self.text(),
    {
        match self {
            WireError::BufferTooSmall => String::from_str("output buffer is too small"),
            WireError::InvalidPayload => String::from_str("payload is invalid"),
            WireError::UnsupportedRevision => String::from_str("schema revision is unsupported"),
            WireError::Truncated => String::from_str("wire envelope is truncated"),
            WireError::InvalidHeader => String::from_str("wire envelope header is invalid"),
        }
    }
}

/// Fixed-size header preceding one encoded payload.
#[derive(Clone, Copy, Debug, PartialEq, Eq)]
pub struct EnvelopeHeader {
    /// Event route identity.
    pub event: EventId,
    /// Breaking wire generation.
    pub wire_major: WireMajor,
    /// Compatible schema revision.
    pub schema_revision: SchemaRevision,
    /// Cross-fabric metadata.
    pub metadata: EventMetadata,
    /// Number of payload bytes following this header.
    pub payload_len: u32,
}

impl EnvelopeHeader {
    /// The time to live on the wire.
    pub open spec fn wire_ttl(self) -> nat {
        match self.metadata.ttl {
            Some(ttl) => ttl as nat,
            None => u32::MAX as nat,
        }
    }

    /// The commit sequence on the wire.
    pub open spec fn wire_commit(self) -> nat {
        match self.metadata.fabric_sequence {
            Some(sequence) => sequence as nat,
            None => u64::MAX as nat,
        }
    }

    /// Neither optional number is the one that stands for none.
    pub open spec fn representable(self) -> bool {
        self.metadata.ttl != Some(u32::MAX) && self.metadata.fabric_sequence != Some(u64::MAX)
    }

    /// The header on the wire.
    pub open spec fn encoding(self) -> Seq<u8> {
        le_bytes(self.event.0 as nat, 16) + le_bytes(self.wire_major.0 as nat, 2) + le_bytes(
            self.schema_revision.0 as nat,
            4,
        ) + self.metadata.origin.bytes() + le_bytes(self.metadata.sequence as nat, 8) + le_bytes(
            self.metadata.origin_time as nat,
            8,
        ) + le_bytes(self.wire_ttl(), 4) + le_bytes(self.wire_commit(), 8) + le_bytes(
            self.payload_len as nat,
            4,
        )
    }

    /// The header is what the first bytes of `bytes` say.
    pub open spec fn decoded_from(self, bytes: Seq<u8>) -> bool {
        &&& self.event.0 == from_le(bytes.subrange(0, 16))
        &&& self.wire_major.0 == from_le(bytes.subrange(16, 18))
        &&& self.schema_revision.0 == from_le(bytes.subrange(18, 22))
        &&& self.metadata.origin.bytes() == bytes.subrange(22, 38)
        &&& self.metadata.sequence == from_le(bytes.subrange(38, 46))
        &&& self.metadata.origin_time == from_le(bytes.subrange(46, 54))
        &&& self.wire_ttl() == from_le(bytes.subrange(54, 58))
        &&& self.wire_commit() == from_le(bytes.subrange(58, 66))
        &&& self.payload_len == from_le(bytes.subrange(66, 70))
        &&& self.representable()
    }

    /// Builds a header directly from an event contract and encoded length.
    ///
    /// # Errors
    ///
    /// Returns [`WireError::InvalidHeader`] if `payload_len` exceeds [`u32::MAX`].
    pub fn for_event<S: EventSpec>(metadata: EventMetadata, payload_len: usize) -> (result: Result<
        Self,
        WireError,
    >)
        ensures
            result == if payload_len > u32::MAX {
                Err::<Self, WireError>(WireError::InvalidHeader)
            } else {
                Ok(
                    EnvelopeHeader {
                        event: S::ID,
                        wire_major: WireMajor(S::WIRE_MAJOR),
                        schema_revision: SchemaRevision(S::SCHEMA_REVISION),
                        metadata,
                        payload_len: payload_len as u32,
                    },
                )
            },
    {
        if payload_len > u32::MAX as usize {
            return Err(WireError::InvalidHeader);
        }
        Ok(
            EnvelopeHeader {
                event: S::ID,
                wire_major: WireMajor(S::WIRE_MAJOR),
                schema_revision: SchemaRevision(S::SCHEMA_REVISION),
                metadata,
                payload_len: payload_len as u32,
            },
        )
    }

    /// Builds a header from a borrowed envelope.
    ///
    /// # Errors
    ///
    /// Returns [`WireError::InvalidHeader`] if the payload length exceeds [`u32::MAX`].
    pub fn from_envelope(envelope: &WireEnvelope<'_>) -> (result: Result<Self, WireError>)
        ensures
            result == if envelope.payload@.len() > u32::MAX {
                Err::<Self, WireError>(WireError::InvalidHeader)
            } else {
                Ok(
                    EnvelopeHeader {
                        event: envelope.event,
                        wire_major: envelope.wire_major,
                        schema_revision: envelope.schema_revision,
                        metadata: envelope.metadata,
                        payload_len: envelope.payload@.len() as u32,
                    },
                )
            },
    {
        if envelope.payload.len() > u32::MAX as usize {
            return Err(WireError::InvalidHeader);
        }
        Ok(
            EnvelopeHeader {
                event: envelope.event,
                wire_major: envelope.wire_major,
                schema_revision: envelope.schema_revision,
                metadata: envelope.metadata,
                payload_len: envelope.payload.len() as u32,
            },
        )
    }

    /// Encodes this header into a fixed-size caller buffer.
    ///
    /// # Errors
    ///
    /// Returns [`WireError::BufferTooSmall`] if `output` is shorter than
    /// [`ENVELOPE_HEADER_BYTES`], or [`WireError::InvalidHeader`] if a present TTL or
    /// fabric sequence uses the maximum integer value reserved for absence.
    pub fn encode(self, output: &mut [u8]) -> (result: Result<(), WireError>)
        ensures
            if old(output)@.len() < ENVELOPE_HEADER_BYTES {
                result == Err::<(), WireError>(WireError::BufferTooSmall) && final(output)@ == old(
                    output,
                )@
            } else if !self.representable() {
                result == Err::<(), WireError>(WireError::InvalidHeader) && final(output)@ == old(
                    output,
                )@
            } else {
                &&& result is Ok
                &&& final(output)@ == self.encoding() + old(output)@.subrange(
                    ENVELOPE_HEADER_BYTES as int,
                    old(output)@.len() as int,
                )
            },
    {
        if output.len() < ENVELOPE_HEADER_BYTES {
            return Err(WireError::BufferTooSmall);
        }
        let ttl = match self.metadata.ttl {
            Some(ttl) => {
                if ttl == u32::MAX {
                    return Err(WireError::InvalidHeader);
                }
                ttl
            },
            None => u32::MAX,
        };
        let commit = match self.metadata.fabric_sequence {
            Some(sequence) => {
                if sequence == u64::MAX {
                    return Err(WireError::InvalidHeader);
                }
                sequence
            },
            None => u64::MAX,
        };
        let ghost before = output@;
        let origin = self.metadata.origin.as_bytes();
        proof {
            lemma_le_len(self.event.0 as nat, 16);
            lemma_le_len(self.wire_major.0 as nat, 2);
            lemma_le_len(self.schema_revision.0 as nat, 4);
            lemma_le_len(self.metadata.sequence as nat, 8);
            lemma_le_len(self.metadata.origin_time as nat, 8);
            lemma_le_len(ttl as nat, 4);
            lemma_le_len(commit as nat, 8);
            lemma_le_len(self.payload_len as nat, 4);
        }
        let ghost w0 = Seq::<u8>::empty();
        assert(output@ =~= w0 + before.subrange(0, before.len() as int));
        let ghost s0 = output@;
        put_le(output, 0, self.event.as_u128(), 16);
        let ghost w1 = w0 + le_bytes(self.event.0 as nat, 16);
        proof {
            lemma_next_part(before, w0, le_bytes(self.event.0 as nat, 16), s0, output@);
        }
        let ghost s1 = output@;
        put_le(output, 16, self.wire_major.0 as u128, 2);
        let ghost w2 = w1 + le_bytes(self.wire_major.0 as nat, 2);
        proof {
            lemma_next_part(before, w1, le_bytes(self.wire_major.0 as nat, 2), s1, output@);
        }
        let ghost s2 = output@;
        put_le(output, 18, self.schema_revision.0 as u128, 4);
        let ghost w3 = w2 + le_bytes(self.schema_revision.0 as nat, 4);
        proof {
            lemma_next_part(before, w2, le_bytes(self.schema_revision.0 as nat, 4), s2, output@);
        }
        let ghost s3 = output@;
        put_bytes(output, 22, &origin);
        let ghost w4 = w3 + self.metadata.origin.bytes();
        proof {
            lemma_next_part(before, w3, self.metadata.origin.bytes(), s3, output@);
        }
        let ghost s4 = output@;
        put_le(output, 38, self.metadata.sequence as u128, 8);
        let ghost w5 = w4 + le_bytes(self.metadata.sequence as nat, 8);
        proof {
            lemma_next_part(before, w4, le_bytes(self.metadata.sequence as nat, 8), s4, output@);
        }
        let ghost s5 = output@;
        put_le(output, 46, self.metadata.origin_time as u128, 8);
        let ghost w6 = w5 + le_bytes(self.metadata.origin_time as nat, 8);
        proof {
            lemma_next_part(before, w5, le_bytes(self.metadata.origin_time as nat, 8), s5, output@);
        }
        let ghost s6 = output@;
        put_le(output, 54, ttl as u128, 4);
        let ghost w7 = w6 + le_bytes(ttl as nat, 4);
        proof {
            lemma_next_part(before, w6, le_bytes(ttl as nat, 4), s6, output@);
        }
        let ghost s7 = output@;
        put_le(output, 58, commit as u128, 8);
        let ghost w8 = w7 + le_bytes(commit as nat, 8);
        proof {
            lemma_next_part(before, w7, le_bytes(commit as nat, 8), s7, output@);
        }
        let ghost s8 = output@;
        put_le(output, 66, self.payload_len as u128, 4);
        let ghost w9 = w8 + le_bytes(self.payload_len as nat, 4);
        proof {
            lemma_next_part(before, w8, le_bytes(self.payload_len as nat, 4), s8, output@);
        }
        assert(w9 =~= self.encoding());
        Ok(())
    }

    /// Decodes a header without allocating.
    ///
    /// # Errors
    ///
    /// Returns [`WireError::Truncated`] if `input` is shorter than
    /// [`ENVELOPE_HEADER_BYTES`].
    pub fn decode(input: &[u8]) -> (result: Result<Self, WireError>)
        ensures
            if input@.len() < ENVELOPE_HEADER_BYTES {
                result == Err::<Self, WireError>(WireError::Truncated)
            } else {
                result matches Ok(header) && header.decoded_from(input@)
            },
    {
        if input.len() < ENVELOPE_HEADER_BYTES {
            return Err(WireError::Truncated);
        }
        proof {
            lemma_spans();
            lemma_le_unique(input@.subrange(16, 18));
            lemma_le_unique(input@.subrange(18, 22));
            lemma_le_unique(input@.subrange(38, 46));
            lemma_le_unique(input@.subrange(46, 54));
            lemma_le_unique(input@.subrange(54, 58));
            lemma_le_unique(input@.subrange(58, 66));
            lemma_le_unique(input@.subrange(66, 70));
        }
        let event = EventId::from_u128(get_le(input, 0, 16));
        let wire_major = WireMajor(get_le(input, 16, 2) as u16);
        let schema_revision = SchemaRevision(get_le(input, 18, 4) as u32);
        let mut origin = [0u8;16];
        let mut index: usize = 0;
        while index < 16
            invariant
                index <= 16,
                input@.len() >= 70,
                forall|i: int| 0 <= i < index ==> origin@[i] == input@[22 + i],
            decreases 16 - index,
        {
            origin[index] = input[22 + index];
            index += 1;
        }
        let sequence = get_le(input, 38, 8) as u64;
        let origin_time = get_le(input, 46, 8) as u64;
        let ttl = get_le(input, 54, 4) as u32;
        let commit = get_le(input, 58, 8) as u64;
        let payload_len = get_le(input, 66, 4) as u32;
        let header = EnvelopeHeader {
            event,
            wire_major,
            schema_revision,
            metadata: EventMetadata {
                origin: OriginId::new(origin),
                sequence,
                origin_time,
                ttl: if ttl == u32::MAX {
                    None
                } else {
                    Some(ttl)
                },
                fabric_sequence: if commit == u64::MAX {
                    None
                } else {
                    Some(commit)
                },
            },
            payload_len,
        };
        assert(header.metadata.origin.bytes() =~= input@.subrange(22, 38));
        Ok(header)
    }
}

/// The parts of an encoding lie where a decoder looks for them.
pub proof fn lemma_encoding_parts(header: EnvelopeHeader)
    ensures
        header.encoding().len() == 70,
        header.encoding().subrange(0, 16) == le_bytes(header.event.0 as nat, 16),
        header.encoding().subrange(16, 18) == le_bytes(header.wire_major.0 as nat, 2),
        header.encoding().subrange(18, 22) == le_bytes(header.schema_revision.0 as nat, 4),
        header.encoding().subrange(22, 38) == header.metadata.origin.bytes(),
        header.encoding().subrange(38, 46) == le_bytes(header.metadata.sequence as nat, 8),
        header.encoding().subrange(46, 54) == le_bytes(header.metadata.origin_time as nat, 8),
        header.encoding().subrange(54, 58) == le_bytes(header.wire_ttl(), 4),
        header.encoding().subrange(58, 66) == le_bytes(header.wire_commit(), 8),
        header.encoding().subrange(66, 70) == le_bytes(header.payload_len as nat, 4),
{
    broadcast use OriginId::lemma_origin_len;

    lemma_le_len(header.event.0 as nat, 16);
    lemma_le_len(header.wire_major.0 as nat, 2);
    lemma_le_len(header.schema_revision.0 as nat, 4);
    lemma_le_len(header.metadata.sequence as nat, 8);
    lemma_le_len(header.metadata.origin_time as nat, 8);
    lemma_le_len(header.wire_ttl(), 4);
    lemma_le_len(header.wire_commit(), 8);
    lemma_le_len(header.payload_len as nat, 4);
    let e = header.encoding();
    assert(e.subrange(0, 16) =~= le_bytes(header.event.0 as nat, 16));
    assert(e.subrange(16, 18) =~= le_bytes(header.wire_major.0 as nat, 2));
    assert(e.subrange(18, 22) =~= le_bytes(header.schema_revision.0 as nat, 4));
    assert(e.subrange(22, 38) =~= header.metadata.origin.bytes());
    assert(e.subrange(38, 46) =~= le_bytes(header.metadata.sequence as nat, 8));
    assert(e.subrange(46, 54) =~= le_bytes(header.metadata.origin_time as nat, 8));
    assert(e.subrange(54, 58) =~= le_bytes(header.wire_ttl(), 4));
    assert(e.subrange(58, 66) =~= le_bytes(header.wire_commit(), 8));
    assert(e.subrange(66, 70) =~= le_bytes(header.payload_len as nat, 4));
}

/// A header is what its own encoding says.
pub proof fn lemma_decodes(header: EnvelopeHeader)
    requires
        header.representable(),
    ensures
        header.decoded_from(header.encoding()),
{
    lemma_spans();
    lemma_encoding_parts(header);
    lemma_le_round_trip(header.event.0 as nat, 16);
    lemma_le_round_trip(header.wire_major.0 as nat, 2);
    lemma_le_round_trip(header.schema_revision.0 as nat, 4);
    lemma_le_round_trip(header.metadata.sequence as nat, 8);
    lemma_le_round_trip(header.metadata.origin_time as nat, 8);
    lemma_le_round_trip(header.wire_ttl(), 4);
    lemma_le_round_trip(header.wire_commit(), 8);
    lemma_le_round_trip(header.payload_len as nat, 4);
}

/// What a decoder reads of an encoded header, whatever follows it, is that header.
pub proof fn law_header_round_trip(header: EnvelopeHeader, rest: Seq<u8>, decoded: EnvelopeHeader)
    requires
        header.representable(),
        decoded.decoded_from(header.encoding() + rest),
    ensures
        decoded == header,
{
    broadcast use OriginId::lemma_origin;

    let e = header.encoding();
    let all = e + rest;
    lemma_spans();
    lemma_encoding_parts(header);
    assert(all.subrange(0, 16) =~= e.subrange(0, 16));
    assert(all.subrange(16, 18) =~= e.subrange(16, 18));
    assert(all.subrange(18, 22) =~= e.subrange(18, 22));
    assert(all.subrange(22, 38) =~= e.subrange(22, 38));
    assert(all.subrange(38, 46) =~= e.subrange(38, 46));
    assert(all.subrange(46, 54) =~= e.subrange(46, 54));
    assert(all.subrange(54, 58) =~= e.subrange(54, 58));
    assert(all.subrange(58, 66) =~= e.subrange(58, 66));
    assert(all.subrange(66, 70) =~= e.subrange(66, 70));
    lemma_le_round_trip(header.event.0 as nat, 16);
    lemma_le_round_trip(header.wire_major.0 as nat, 2);
    lemma_le_round_trip(header.schema_revision.0 as nat, 4);
    lemma_le_round_trip(header.metadata.sequence as nat, 8);
    lemma_le_round_trip(header.metadata.origin_time as nat, 8);
    lemma_le_round_trip(header.wire_ttl(), 4);
    lemma_le_round_trip(header.wire_commit(), 8);
    lemma_le_round_trip(header.payload_len as nat, 4);
}

/// A header has one encoding: encoding what was decoded gives the bytes back.
pub proof fn law_header_canonical(bytes: Seq<u8>, decoded: EnvelopeHeader)
    requires
        bytes.len() >= ENVELOPE_HEADER_BYTES,
        decoded.decoded_from(bytes),
    ensures
        decoded.encoding() == bytes.subrange(0, ENVELOPE_HEADER_BYTES as int),
{
    lemma_le_unique(bytes.subrange(0, 16));
    lemma_le_unique(bytes.subrange(16, 18));
    lemma_le_unique(bytes.subrange(18, 22));
    lemma_le_unique(bytes.subrange(38, 46));
    lemma_le_unique(bytes.subrange(46, 54));
    lemma_le_unique(bytes.subrange(54, 58));
    lemma_le_unique(bytes.subrange(58, 66));
    lemma_le_unique(bytes.subrange(66, 70));
    assert(decoded.encoding() =~= bytes.subrange(0, 70));
}

/// Event-specific tagged wire codec.
pub trait WireCodec: EventSpec {
    /// The encoding of the payload may be that long.
    open spec fn measures(payload: Self::Payload, length: usize) -> bool {
        true
    }

    /// Encoding the payload may leave `output` and give `result`.
    open spec fn encodes(
        payload: Self::Payload,
        output: Seq<u8>,
        result: Result<usize, WireError>,
    ) -> bool {
        true
    }

    /// Decoding the bytes may give `result`.
    open spec fn decodes(
        bytes: Seq<u8>,
        revision: SchemaRevision,
        result: Result<Self::Payload, WireError>,
    ) -> bool {
        true
    }

    /// Returns the encoded payload length.
    fn encoded_len(payload: &Self::Payload) -> (length: usize)
        ensures
            Self::measures(*payload, length),
    ;

    /// Encodes one payload into the caller-provided buffer and returns how many bytes it
    /// takes there.
    ///
    /// # Errors
    ///
    /// Implementations return [`WireError::BufferTooSmall`] if `output` cannot hold the
    /// encoding, or [`WireError::InvalidPayload`] if the payload cannot be represented by
    /// the event schema.
    fn encode(payload: &Self::Payload, output: &mut [u8]) -> (result: Result<usize, WireError>)
        ensures
            final(output)@.len() == old(output)@.len(),
            Self::encodes(*payload, final(output)@, result),
    ;

    /// Decodes one payload from a compatible schema revision.
    ///
    /// # Errors
    ///
    /// Implementations return [`WireError::UnsupportedRevision`] if `revision` is
    /// unsupported, or [`WireError::InvalidPayload`] if `bytes` do not encode a valid
    /// payload for that revision.
    fn decode(bytes: &[u8], revision: SchemaRevision) -> (result: Result<Self::Payload, WireError>)
        ensures
            Self::decodes(bytes@, revision, result),
    ;
}

} // verus!
