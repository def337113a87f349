//! Where everything stands in the frames of the routing daemon, and what it makes of them.
use crate::broker::{BrokerView, RouteKey};
use crate::bytes::{law_le_digit, lemma_le_len};
use crate::daemon::{
    after_publication, packet_error, packet_of, published, route_bytes, DaemonError, Delivery,
    UnixFrame,
};
use crate::event::fnv1a;
use crate::metadata::{EventMetadata, OriginId};
use crate::text::{decimal_digits, hex_digits};
use crate::wire::{lemma_encoding_parts, EnvelopeHeader, WireError};
use vstd::arithmetic::power::pow;
use vstd::prelude::*;

verus! {

/// Which envelope headers can be put on the wire: all but those whose time to live or commit
/// number is the greatest there is, which stands for none.
pub proof fn law_header_representable(header: EnvelopeHeader)
    ensures
        header.representable() <==> (header.metadata.ttl is Some ==> header.metadata.ttl->0
            < 0xffff_ffff) && (header.metadata.fabric_sequence is Some
            ==> header.metadata.fabric_sequence->0 < 0xffff_ffff_ffff_ffff),
{
}

/// An envelope header on the wire takes 70 bytes: the event, the wire major, the schema
/// revision, the origin, the sequence, the origin's clock, the time to live, the commit number
/// and the payload length, each number least significant byte first. A time to live or commit
/// number that is not there is all ones.
pub proof fn law_envelope_layout(header: EnvelopeHeader, i: nat)
    ensures
        ({
            let bytes = header.encoding();
            let given = header.metadata;
            let ttl = if given.ttl is Some {
                given.ttl->0 as int
            } else {
                0xffff_ffff
            };
            let commit = if given.fabric_sequence is Some {
                given.fabric_sequence->0 as int
            } else {
                0xffff_ffff_ffff_ffff
            };
            &&& bytes.len() == 70
            &&& i < 16 ==> bytes[i as int] as int == (header.event.0 as int / pow(256, i)) % 256
            &&& i < 2 ==> bytes[16 + i as int] as int == (header.wire_major.0 as int / pow(256, i))
                % 256
            &&& i < 4 ==> bytes[18 + i as int] as int == (header.schema_revision.0 as int / pow(
                256,
                i,
            )) % 256
            &&& i < 16 ==> bytes[22 + i as int] == given.origin.bytes()[i as int]
            &&& i < 8 ==> bytes[38 + i as int] as int == (given.sequence as int / pow(256, i)) % 256
            &&& i < 8 ==> bytes[46 + i as int] as int == (given.origin_time as int / pow(256, i))
                % 256
            &&& i < 4 ==> bytes[54 + i as int] as int == (ttl / pow(256, i)) % 256
            &&& i < 8 ==> bytes[58 + i as int] as int == (commit / pow(256, i)) % 256
            &&& i < 4 ==> bytes[66 + i as int] as int == (header.payload_len as int / pow(256, i))
                % 256
        }),
{
    broadcast use OriginId::lemma_origin_len;

    let bytes = header.encoding();
    lemma_encoding_parts(header);
    if i < 16 {
        law_le_digit(header.event.0 as nat, 16, i);
        assert(bytes.subrange(0, 16)[i as int] == bytes[i as int]);
        assert(bytes.subrange(22, 38)[i as int] == bytes[22 + i as int]);
    }
    if i < 8 {
        law_le_digit(header.metadata.sequence as nat, 8, i);
        law_le_digit(header.metadata.origin_time as nat, 8, i);
        law_le_digit(header.wire_commit(), 8, i);
        assert(bytes.subrange(38, 46)[i as int] == bytes[38 + i as int]);
        assert(bytes.subrange(46, 54)[i as int] == bytes[46 + i as int]);
        assert(bytes.subrange(58, 66)[i as int] == bytes[58 + i as int]);
    }
    if i < 4 {
        law_le_digit(header.schema_revision.0 as nat, 4, i);
        law_le_digit(header.wire_ttl(), 4, i);
        law_le_digit(header.payload_len as nat, 4, i);
        assert(bytes.subrange(18, 22)[i as int] == bytes[18 + i as int]);
        assert(bytes.subrange(54, 58)[i as int] == bytes[54 + i as int]);
        assert(bytes.subrange(66, 70)[i as int] == bytes[66 + i as int]);
    }
    if i < 2 {
        law_le_digit(header.wire_major.0 as nat, 2, i);
        assert(bytes.subrange(16, 18)[i as int] == bytes[16 + i as int]);
    }
}

/// A frame begins with its kind. An interest, declared or taken back, goes on with its route:
/// the event and the wire major, least significant byte first. A publication goes on with its
/// envelope header and its payload.
pub proof fn law_frame_layout(frame: UnixFrame, i: nat)
    ensures
        ({
            let bytes = frame.encoding();
            match frame {
                UnixFrame::Subscribe(route) => bytes[0] == 0 && bytes.len() == 19 && (i < 16
                    ==> bytes[1 + i as int] as int == (route.event.0 as int / pow(256, i)) % 256)
                    && (i < 2 ==> bytes[17 + i as int] as int == (route.wire_major.0 as int / pow(
                    256,
                    i,
                )) % 256),
                UnixFrame::Unsubscribe(route) => bytes[0] == 1 && bytes.len() == 19 && (i < 16
                    ==> bytes[1 + i as int] as int == (route.event.0 as int / pow(256, i)) % 256)
                    && (i < 2 ==> bytes[17 + i as int] as int == (route.wire_major.0 as int / pow(
                    256,
                    i,
                )) % 256),
                UnixFrame::Publish { header, payload } => {
                    &&& bytes[0] == 2
                    &&& bytes.len() == 71 + payload@.len()
                    &&& i < 70 ==> bytes[1 + i as int] == header.encoding()[i as int]
                    &&& i < payload@.len() ==> bytes[71 + i as int] == payload@[i as int]
                },
            }
        }),
{
    match frame {
        UnixFrame::Publish { header, payload } => {
            lemma_encoding_parts(header);
        },
        UnixFrame::Subscribe(route) => {
            lemma_route_layout(route, i);
        },
        UnixFrame::Unsubscribe(route) => {
            lemma_route_layout(route, i);
        },
    }
}

proof fn lemma_route_layout(route: RouteKey, i: nat)
    ensures
        route_bytes(route).len() == 18,
        i < 16 ==> route_bytes(route)[i as int] as int == (route.event.0 as int / pow(256, i))
            % 256,
        i < 2 ==> route_bytes(route)[16 + i as int] as int == (route.wire_major.0 as int / pow(
            256,
            i,
        )) % 256,
{
    lemma_le_len(route.event.0 as nat, 16);
    lemma_le_len(route.wire_major.0 as nat, 2);
    if i < 16 {
        law_le_digit(route.event.0 as nat, 16, i);
    }
    if i < 2 {
        law_le_digit(route.wire_major.0 as nat, 2, i);
    }
}

/// Which bytes are a frame: nineteen that begin with a zero or a one, and seventy-one or more
/// that begin with a two. What is shorter is truncated, what is longer than its kind allows is
/// no valid payload, and no other kind is known.
pub proof fn law_frame_accepts(bytes: Seq<u8>)
    ensures
        UnixFrame::decode_error(bytes) == if bytes.len() == 0 {
            Some(WireError::Truncated)
        } else if bytes[0] > 2 {
            Some(WireError::InvalidHeader)
        } else if bytes[0] == 2 {
            if bytes.len() < 71 {
                Some(WireError::Truncated)
            } else {
                None
            }
        } else if bytes.len() < 19 {
            Some(WireError::Truncated)
        } else if bytes.len() > 19 {
            Some(WireError::InvalidPayload)
        } else {
            None
        },
{
}

/// A packet is the length of its frame, in four bytes with the most significant first, and the
/// frame. Frames of up to sixteen mebibytes fit, if they can be put on the wire.
pub proof fn law_packet_layout(frame: UnixFrame, i: nat)
    ensures
        ({
            let body = frame.encoding();
            let packet = packet_of(body);
            &&& packet.len() == 4 + body.len()
            &&& i < 4 ==> packet[3 - i as int] as int == (body.len() as int / pow(256, i)) % 256
            &&& i < body.len() ==> packet[4 + i as int] == body[i as int]
            &&& packet_error(frame) == if frame is Publish && !(frame->header.representable()) {
                Some(DaemonError::InvalidFrame)
            } else if body.len() > 16 * 1024 * 1024 {
                Some(DaemonError::FrameTooLarge)
            } else {
                None
            }
        }),
{
    let body = frame.encoding();
    lemma_le_len(body.len(), 4);
    if i < 4 {
        law_le_digit(body.len(), 4, i);
    }
}

/// What a publication comes to. A payload that is not as long as its header says is refused,
/// and so is a new origin for which there is no room. One without a hop left, one that came
/// before, and one that nobody wants go nowhere. Every other goes to exactly the clients of its
/// route: the header that was published, with the hop and the commit number in its metadata,
/// and the payload.
pub proof fn law_publication(
    broker: BrokerView,
    header: EnvelopeHeader,
    payload: Vec<u8>,
    result: Result<Option<Delivery>, DaemonError>,
)
    requires
        broker.wf(),
        published(broker, header, payload, result),
    ensures
        ({
            let given = header.metadata;
            let known = broker.seen.contains_key(given.origin);
            let route = RouteKey { event: header.event, wire_major: header.wire_major };
            let number = ((broker.commits + 1) % (u64::MAX + 1)) as u64;
            let after = after_publication(broker, header, payload@);
            let sent = UnixFrame::Publish {
                header: EnvelopeHeader {
                    event: header.event,
                    wire_major: header.wire_major,
                    schema_revision: header.schema_revision,
                    metadata: EventMetadata {
                        origin: given.origin,
                        sequence: given.sequence,
                        origin_time: given.origin_time,
                        ttl: if given.ttl is None {
                            None
                        } else {
                            Some((given.ttl->0 - 1) as u32)
                        },
                        fabric_sequence: Some(number),
                    },
                    payload_len: header.payload_len,
                },
                payload,
            };
            if header.payload_len != payload@.len() {
                &&& result == Err::<Option<Delivery>, DaemonError>(DaemonError::LengthMismatch)
                &&& after == broker
            } else if given.ttl != Some(0u32) && !known && broker.seen.len() >= broker.capacity {
                &&& result == Err::<Option<Delivery>, DaemonError>(DaemonError::OriginTableFull)
                &&& after == broker
            } else if given.ttl == Some(0u32) || known && given.sequence
                <= broker.seen[given.origin] {
                &&& result == Ok::<Option<Delivery>, DaemonError>(None)
                &&& after == broker
            } else {
                &&& after.seen == broker.seen.insert(given.origin, given.sequence)
                &&& after.commits == number
                &&& after.routes == broker.routes
                &&& if !broker.routes.contains_key(route) {
                    result == Ok::<Option<Delivery>, DaemonError>(None)
                } else if packet_error(sent) is Some {
                    result == Err::<Option<Delivery>, DaemonError>(packet_error(sent)->0)
                } else {
                    &&& result is Ok
                    &&& result->Ok_0 is Some
                    &&& result->Ok_0->0.clients@ == broker.routes[route]
                    &&& result->Ok_0->0.packet@ == packet_of(sent.encoding())
                }
            }
        }),
{
    let empty: &[u8] = arbitrary();
    let envelope = crate::metadata::WireEnvelope {
        event: header.event,
        wire_major: header.wire_major,
        schema_revision: header.schema_revision,
        metadata: header.metadata,
        payload: empty,
    };
    crate::broker_laws::law_routed_envelope(broker, envelope);
}

/// The identity of an event is the FNV-1a hash of its name: it begins with the offset, and each
/// byte is mixed in and multiplied by the prime, modulo the width of the identity.
pub proof fn law_event_hash(bytes: Seq<u8>, byte: u8)
    ensures
        fnv1a(Seq::empty()) == 0x6c62272e07bb014262b821756295c58du128,
        fnv1a(bytes.push(byte)) == (fnv1a(bytes) ^ (byte as u128)).wrapping_mul(
            0x0000000001000000000000000000013bu128,
        ),
{
    assert(bytes.push(byte).drop_last() =~= bytes);
}

/// The value of a digit, up to `f`.
pub open spec fn digit_value(digit: char) -> int {
    if '0' <= digit && digit <= '9' {
        digit as int - '0' as int
    } else {
        digit as int - 'a' as int + 10
    }
}

/// The number that digits are, most significant first, to that base.
pub open spec fn digits_value(digits: Seq<char>, base: int) -> int
    decreases digits.len(),
{
    if digits.len() == 0 {
        0
    } else {
        digits_value(digits.drop_last(), base) * base + digit_value(digits.last())
    }
}

/// Decimal digits are those of the number, without leading zeros.
pub proof fn law_decimal(value: nat)
    ensures
        digits_value(decimal_digits(value), 10) == value,
        decimal_digits(value).len() > 0,
        value > 0 ==> decimal_digits(value)[0] != '0',
        forall|i: int|
            0 <= i < decimal_digits(value).len() ==> '0' <= #[trigger] decimal_digits(value)[i]
                && decimal_digits(value)[i] <= '9',
    decreases value,
{
    let digits = decimal_digits(value);
    if value < 10 {
        assert(digits.drop_last() =~= Seq::empty());
        assert(digits_value(digits.drop_last(), 10) == 0);
    } else {
        law_decimal(value / 10);
        assert(digits.drop_last() =~= decimal_digits(value / 10));
    }
}

/// Hexadecimal digits are those of the number, as many as are asked for, with leading zeros.
pub proof fn law_hexadecimal(value: nat, count: nat)
    ensures
        hex_digits(value, count).len() == count,
        digits_value(hex_digits(value, count), 16) == value as int % pow(16, count),
        forall|i: int|
            0 <= i < count ==> {
                let digit = #[trigger] hex_digits(value, count)[i];
                '0' <= digit && digit <= '9' || 'a' <= digit && digit <= 'f'
            },
    decreases count,
{
    reveal(pow);
    vstd::arithmetic::power::lemma_pow0(16);
    let digits = hex_digits(value, count);
    if count > 0 {
        let rest = (count - 1) as nat;
        law_hexadecimal(value / 16, rest);
        assert(digits.drop_last() =~= hex_digits(value / 16, rest));
        vstd::arithmetic::power::lemma_pow_positive(16, rest);
        vstd::arithmetic::div_mod::lemma_mod_breakdown(value as int, 16, pow(16, rest));
    }
}

} // verus!
