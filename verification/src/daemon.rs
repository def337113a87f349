//! What the routing daemon does with the frames of its clients.
use crate::broker::{Broker, BrokerError, BrokerView, ClientId, ClientSnapshot, RouteKey};
use crate::bytes::{
    be_bytes, from_le, get_le, le_bytes, lemma_le_len, lemma_le_round_trip, lemma_le_unique,
    lemma_spans,
};
use crate::event::EventId;
use crate::metadata::{WireEnvelope, WireMajor};
use crate::wire::{
    law_header_canonical, lemma_encoding_parts, EnvelopeHeader, WireError, ENVELOPE_HEADER_BYTES,
};
use vstd::prelude::*;
use vstd::string::StringExecFns;

verus! {

/// Largest frame that the daemon reads or writes.
pub const MAX_FRAME_BYTES: usize = 16777216;

/// Bytes that precede a frame and give its length, most significant first.
pub const PREFIX_BYTES: usize = 4;

const SUBSCRIBE: u8 = 0;

const UNSUBSCRIBE: u8 = 1;

const PUBLISH: u8 = 2;

/// One request of a client, or one delivery to it.
#[derive(Clone, Debug, PartialEq, Eq)]
pub enum UnixFrame {
    /// The client wants the route.
    Subscribe(RouteKey),
    /// The client no longer wants the route.
    Unsubscribe(RouteKey),
    /// An encoded event.
    Publish {
        /// The envelope header.
        header: EnvelopeHeader,
        /// The encoded payload.
        payload: Vec<u8>,
    },
}

/// A route on the wire.
pub open spec fn route_bytes(route: RouteKey) -> Seq<u8> {
    le_bytes(route.event.0 as nat, 16) + le_bytes(route.wire_major.0 as nat, 2)
}

impl UnixFrame {
    /// The frame on the wire.
    pub open spec fn encoding(self) -> Seq<u8> {
        match self {
            UnixFrame::Subscribe(route) => seq![0u8] + route_bytes(route),
            UnixFrame::Unsubscribe(route) => seq![1u8] + route_bytes(route),
            UnixFrame::Publish { header, payload } => seq![2u8] + header.encoding() + payload@,
        }
    }

    /// The frame can be put on the wire.
    pub open spec fn representable(self) -> bool {
        self matches UnixFrame::Publish { header, payload } ==> header.representable()
    }

    /// Why bytes are not a frame, if they are not.
    pub open spec fn decode_error(bytes: Seq<u8>) -> Option<WireError> {
        if bytes.len() == 0 {
            Some(WireError::Truncated)
        } else if bytes[0] == 0 || bytes[0] == 1 {
            if bytes.len() < 19 {
                Some(WireError::Truncated)
            } else if bytes.len() > 19 {
                Some(WireError::InvalidPayload)
            } else {
                None
            }
        } else if bytes[0] == 2 {
            if bytes.len() < 1 + ENVELOPE_HEADER_BYTES {
                Some(WireError::Truncated)
            } else {
                None
            }
        } else {
            Some(WireError::InvalidHeader)
        }
    }

    /// Encodes the frame.
    ///
    /// # Errors
    ///
    /// Returns [`WireError::InvalidHeader`] if the header cannot be encoded.
    pub fn encode(&self) -> (result: Result<Vec<u8>, WireError>)
        ensures
            if self.representable() {
                result matches Ok(bytes) && bytes@ == self.encoding()
            } else {
                result == Err::<Vec<u8>, WireError>(WireError::InvalidHeader)
            },
    {
        let mut bytes: Vec<u8> = Vec::new();
        match self {
            UnixFrame::Subscribe(route) => {
                bytes.push(SUBSCRIBE);
                push_route(&mut bytes, *route);
                assert(bytes@ =~= self.encoding());
            },
            UnixFrame::Unsubscribe(route) => {
                bytes.push(UNSUBSCRIBE);
                push_route(&mut bytes, *route);
                assert(bytes@ =~= self.encoding());
            },
            UnixFrame::Publish { header, payload } => {
                bytes.push(PUBLISH);
                let mut encoded = [0u8;70];
                match header.encode(&mut encoded) {
                    Ok(_) => {},
                    Err(error) => {
                        return Err(error);
                    },
                }
                proof {
                    lemma_encoding_parts(*header);
                }
                bytes.extend_from_slice(&encoded);
                bytes.extend_from_slice(payload.as_slice());
                assert(bytes@ =~= self.encoding());
            },
        }
        Ok(bytes)
    }

    /// Decodes one frame.
    ///
    /// # Errors
    ///
    /// Returns [`WireError::Truncated`] for a frame that ends too early,
    /// [`WireError::InvalidPayload`] for one that goes on too long, and
    /// [`WireError::InvalidHeader`] for one of an unknown kind.
    pub fn decode(bytes: &[u8]) -> (result: Result<UnixFrame, WireError>)
        ensures
            match UnixFrame::decode_error(bytes@) {
                Some(error) => result == Err::<UnixFrame, WireError>(error),
                None => {
                    &&& result matches Ok(frame)
                    &&& frame.encoding() == bytes@
                    &&& frame.representable()
                },
            },
    {
        if bytes.len() == 0 {
            return Err(WireError::Truncated);
        }
        let kind = bytes[0];
        if kind == SUBSCRIBE || kind == UNSUBSCRIBE {
            if bytes.len() < 19 {
                return Err(WireError::Truncated);
            }
            if bytes.len() > 19 {
                return Err(WireError::InvalidPayload);
            }
            let event = EventId::from_u128(get_le(bytes, 1, 16));
            proof {
                lemma_spans();
                lemma_le_unique(bytes@.subrange(1, 17));
                lemma_le_unique(bytes@.subrange(17, 19));
            }
            let wire_major = WireMajor(get_le(bytes, 17, 2) as u16);
            let route = RouteKey { event, wire_major };
            assert(bytes@ =~= seq![kind] + route_bytes(route));
            if kind == SUBSCRIBE {
                Ok(UnixFrame::Subscribe(route))
            } else {
                Ok(UnixFrame::Unsubscribe(route))
            }
        } else if kind == PUBLISH {
            if bytes.len() < 1 + ENVELOPE_HEADER_BYTES {
                return Err(WireError::Truncated);
            }
            let rest = vstd::slice::slice_subrange(bytes, 1, bytes.len());
            match EnvelopeHeader::decode(rest) {
                Ok(header) => {
                    proof {
                        law_header_canonical(rest@, header);
                    }
                    let tail = vstd::slice::slice_subrange(bytes, 71, bytes.len());
                    let mut payload: Vec<u8> = Vec::new();
                    payload.extend_from_slice(tail);
                    assert(bytes@ =~= seq![kind] + header.encoding() + payload@);
                    Ok(UnixFrame::Publish { header, payload })
                },
                Err(error) => Err(error),
            }
        } else {
            Err(WireError::InvalidHeader)
        }
    }
}

/// Appends a route.
fn push_route(bytes: &mut Vec<u8>, route: RouteKey)
    ensures
        final(bytes)@ == old(bytes)@ + route_bytes(route),
{
    push_le(bytes, route.event.as_u128(), 16);
    push_le(bytes, route.wire_major.0 as u128, 2);
    assert(bytes@ =~= old(bytes)@ + route_bytes(route));
}

/// Appends the `count` low bytes of `value`, least significant first.
fn push_le(bytes: &mut Vec<u8>, value: u128, count: usize)
    ensures
        final(bytes)@ == old(bytes)@ + le_bytes(value as nat, count as nat),
{
    let ghost before = bytes@;
    let mut rest: u128 = value;
    let mut left: usize = count;
    while left > 0
        invariant
            left <= count,
            bytes@ + le_bytes(rest as nat, left as nat) == before + le_bytes(
                value as nat,
                count as nat,
            ),
        decreases left,
    {
        let byte = (rest % 256) as u8;
        let ghost middle = bytes@;
        bytes.push(byte);
        proof {
            assert(le_bytes(rest as nat, left as nat) =~= seq![byte] + le_bytes(
                (rest / 256) as nat,
                (left - 1) as nat,
            ));
            assert(bytes@ + le_bytes((rest / 256) as nat, (left - 1) as nat) =~= middle + le_bytes(
                rest as nat,
                left as nat,
            ));
        }
        rest = rest / 256;
        left -= 1;
    }
    assert(bytes@ + Seq::<u8>::empty() =~= bytes@);
}

/// A frame has one encoding, and an encoding is that of one frame.
pub proof fn law_frame_round_trip(frame: UnixFrame, decoded: UnixFrame)
    requires
        frame.representable(),
        decoded.representable(),
        decoded.encoding() == frame.encoding(),
    ensures
        UnixFrame::decode_error(frame.encoding()) is None,
        match frame {
            UnixFrame::Publish { header, payload } => {
                &&& decoded matches UnixFrame::Publish { header: h, payload: p }
                &&& h == header
                &&& p@ == payload@
            },
            _ => decoded == frame,
        },
{
    let bytes = frame.encoding();
    assert(frame.encoding()[0] == decoded.encoding()[0]);
    match frame {
        UnixFrame::Publish { header, payload } => {
            match decoded {
                UnixFrame::Publish { header: h, payload: p } => {
                    lemma_encoding_parts(header);
                    lemma_encoding_parts(h);
                    assert(bytes.subrange(1, 71) =~= header.encoding());
                    assert(bytes.subrange(1, 71) =~= h.encoding());
                    assert(bytes.subrange(71, bytes.len() as int) =~= payload@);
                    assert(bytes.subrange(71, bytes.len() as int) =~= p@);
                    lemma_header_injective(header, h);
                },
                UnixFrame::Subscribe(_) => {},
                UnixFrame::Unsubscribe(_) => {},
            }
        },
        UnixFrame::Subscribe(route) => {
            lemma_route(decoded, route, bytes);
        },
        UnixFrame::Unsubscribe(route) => {
            lemma_route(decoded, route, bytes);
        },
    }
}

proof fn lemma_header_injective(a: EnvelopeHeader, b: EnvelopeHeader)
    requires
        a.representable(),
        b.representable(),
        a.encoding() == b.encoding(),
    ensures
        a == b,
{
    crate::wire::lemma_decodes(b);
    assert(a.encoding() + Seq::<u8>::empty() =~= a.encoding());
    crate::wire::law_header_round_trip(a, Seq::empty(), b);
}

proof fn lemma_route(decoded: UnixFrame, route: RouteKey, bytes: Seq<u8>)
    requires
        decoded.encoding() == bytes,
        bytes == seq![0u8] + route_bytes(route) || bytes == seq![1u8] + route_bytes(route),
    ensures
        bytes.len() == 19,
        bytes[0] == 0 ==> decoded == UnixFrame::Subscribe(route),
        bytes[0] == 1 ==> decoded == UnixFrame::Unsubscribe(route),
{
    lemma_spans();
    lemma_le_round_trip(route.event.0 as nat, 16);
    lemma_le_round_trip(route.wire_major.0 as nat, 2);
    assert(bytes.subrange(1, 17) =~= le_bytes(route.event.0 as nat, 16));
    assert(bytes.subrange(17, 19) =~= le_bytes(route.wire_major.0 as nat, 2));
    match decoded {
        UnixFrame::Subscribe(other) => {
            lemma_le_round_trip(other.event.0 as nat, 16);
            lemma_le_round_trip(other.wire_major.0 as nat, 2);
            assert(bytes.subrange(1, 17) =~= le_bytes(other.event.0 as nat, 16));
            assert(bytes.subrange(17, 19) =~= le_bytes(other.wire_major.0 as nat, 2));
        },
        UnixFrame::Unsubscribe(other) => {
            lemma_le_round_trip(other.event.0 as nat, 16);
            lemma_le_round_trip(other.wire_major.0 as nat, 2);
            assert(bytes.subrange(1, 17) =~= le_bytes(other.event.0 as nat, 16));
            assert(bytes.subrange(17, 19) =~= le_bytes(other.wire_major.0 as nat, 2));
        },
        UnixFrame::Publish { header, payload } => {
            assert(decoded.encoding()[0] == 2);
        },
    }
}

/// Why the daemon ends the connection of a client.
#[derive(Clone, Copy, Debug, PartialEq, Eq, Structural)]
pub enum DaemonError {
    /// The bytes are no frame, or a frame cannot be encoded.
    InvalidFrame,
    /// The payload is not as long as the header says.
    LengthMismatch,
    /// The broker knows too many origins.
    OriginTableFull,
    /// The frame is larger than [`MAX_FRAME_BYTES`].
    FrameTooLarge,
}

impl DaemonError {
    /// The text that [`Self::message`] gives.
    pub open spec fn text(self) -> Seq<char> {
        match self {
            DaemonError::InvalidFrame => "invalid Unix frame"@,
            DaemonError::LengthMismatch => "payload length does not match envelope header"@,
            DaemonError::OriginTableFull => "broker origin table is full"@,
            DaemonError::FrameTooLarge => "Unix frame is too large"@,
        }
    }

    /// Describes the failure.
    pub fn message(&self) -> (message: String)
        ensures
            message@ == self.text(),
    {
        match self {
            DaemonError::InvalidFrame => String::from_str("invalid Unix frame"),
            DaemonError::LengthMismatch => String::from_str(
                "payload length does not match envelope header",
            ),
            DaemonError::OriginTableFull => String::from_str("broker origin table is full"),
            DaemonError::FrameTooLarge => String::from_str("Unix frame is too large"),
        }
    }
}

/// A packet on the wire.
pub open spec fn packet_of(body: Seq<u8>) -> Seq<u8> {
    be_bytes(body.len(), 4) + body
}

/// Why a frame is not put in a packet, if it is not.
pub open spec fn packet_error(frame: UnixFrame) -> Option<DaemonError> {
    if !frame.representable() {
        Some(DaemonError::InvalidFrame)
    } else if frame.encoding().len() > MAX_FRAME_BYTES {
        Some(DaemonError::FrameTooLarge)
    } else {
        None
    }
}

/// Puts one frame in a packet.
///
/// # Errors
///
/// Returns [`DaemonError::InvalidFrame`] if the frame cannot be encoded, and
/// [`DaemonError::FrameTooLarge`] if it is larger than [`MAX_FRAME_BYTES`].
pub fn encode_packet(frame: &UnixFrame) -> (result: Result<Vec<u8>, DaemonError>)
    ensures
        match packet_error(*frame) {
            Some(error) => result == Err::<Vec<u8>, DaemonError>(error),
            None => result matches Ok(packet) && packet@ == packet_of(frame.encoding()),
        },
{
    let body = match frame.encode() {
        Ok(body) => body,
        Err(_) => {
            return Err(DaemonError::InvalidFrame);
        },
    };
    if body.len() > MAX_FRAME_BYTES {
        return Err(DaemonError::FrameTooLarge);
    }
    let mut prefix: Vec<u8> = Vec::new();
    push_le(&mut prefix, body.len() as u128, 4);
    proof {
        lemma_le_len(body@.len(), 4);
        assert(prefix@ =~= le_bytes(body@.len(), 4));
    }
    let mut packet: Vec<u8> = Vec::with_capacity(body.len() + 4);
    packet.push(prefix[3]);
    packet.push(prefix[2]);
    packet.push(prefix[1]);
    packet.push(prefix[0]);
    assert(packet@ =~= be_bytes(body@.len(), 4));
    packet.extend_from_slice(body.as_slice());
    Ok(packet)
}

/// Reads the length of a frame from the bytes before it.
///
/// # Errors
///
/// Returns [`DaemonError::FrameTooLarge`] if it is larger than [`MAX_FRAME_BYTES`].
pub fn packet_length(prefix: [u8; 4]) -> (result: Result<usize, DaemonError>)
    ensures
        ({
            let length = from_le(prefix@.reverse());
            if length > MAX_FRAME_BYTES {
                result == Err::<usize, DaemonError>(DaemonError::FrameTooLarge)
            } else {
                result matches Ok(found) && found == length
            }
        }),
{
    let turned = [prefix[3], prefix[2], prefix[1], prefix[0]];
    let length = get_le(&turned, 0, 4);
    assert(turned@.subrange(0, 4) =~= prefix@.reverse());
    if length > 16777216 {
        return Err(DaemonError::FrameTooLarge);
    }
    Ok(length as usize)
}

/// The length that precedes a frame is the length of the frame.
pub proof fn law_packet_length(body: Seq<u8>)
    requires
        body.len() <= MAX_FRAME_BYTES,
    ensures
        packet_of(body).subrange(0, 4) == be_bytes(body.len(), 4),
        from_le(be_bytes(body.len(), 4).reverse()) == body.len(),
        packet_of(body).subrange(4, packet_of(body).len() as int) == body,
{
    lemma_spans();
    lemma_le_round_trip(body.len(), 4);
    assert(be_bytes(body.len(), 4).reverse() =~= le_bytes(body.len(), 4));
    assert(packet_of(body).subrange(0, 4) =~= be_bytes(body.len(), 4));
    assert(packet_of(body).subrange(4, packet_of(body).len() as int) =~= body);
}

/// One packet for several clients.
#[derive(Clone, Debug, PartialEq, Eq)]
pub struct Delivery {
    /// Who gets the packet.
    pub clients: ClientSnapshot,
    /// The bytes.
    pub packet: Vec<u8>,
}

/// The header of the delivery of a published event.
pub open spec fn forwarded(broker: BrokerView, header: EnvelopeHeader) -> EnvelopeHeader {
    EnvelopeHeader { metadata: broker.stamped(header.metadata), ..header }
}

/// The outcome of one publication.
pub open spec fn published(
    broker: BrokerView,
    header: EnvelopeHeader,
    payload: Vec<u8>,
    result: Result<Option<Delivery>, DaemonError>,
) -> bool {
    let route = RouteKey { event: header.event, wire_major: header.wire_major };
    let frame = UnixFrame::Publish { header: forwarded(broker, header), payload };
    if header.payload_len != payload@.len() {
        result == Err::<Option<Delivery>, DaemonError>(DaemonError::LengthMismatch)
    } else if broker.refuses(header.metadata) == Some(BrokerError::OriginCapacity) {
        result == Err::<Option<Delivery>, DaemonError>(DaemonError::OriginTableFull)
    } else if broker.refuses(header.metadata) is Some || broker.repeated(header.metadata)
        || !broker.routes.contains_key(route) {
        result == Ok::<Option<Delivery>, DaemonError>(None)
    } else {
        match packet_error(frame) {
            Some(error) => result == Err::<Option<Delivery>, DaemonError>(error),
            None => {
                &&& result is Ok
                &&& result->Ok_0 is Some
                &&& result->Ok_0->0.clients@ == broker.routes[route]
                &&& result->Ok_0->0.packet@ == packet_of(frame.encoding())
            },
        }
    }
}

/// The broker after one publication.
pub open spec fn after_publication(
    broker: BrokerView,
    header: EnvelopeHeader,
    payload: Seq<u8>,
) -> BrokerView {
    if header.payload_len != payload.len() {
        broker
    } else {
        broker.routed(header.metadata)
    }
}

/// Routes one published event. The result says which clients get which bytes; an expired
/// or repeated event, and one that nobody wants, is dropped.
///
/// # Errors
///
/// Fails if the payload is not as long as the header says, if the broker has no room for
/// the origin, or if the delivery cannot be encoded within [`MAX_FRAME_BYTES`].
pub fn publish(broker: &mut Broker, header: EnvelopeHeader, payload: Vec<u8>) -> (result: Result<
    Option<Delivery>,
    DaemonError,
>)
    requires
        old(broker).wf(),
    ensures
        final(broker).wf(),
        final(broker)@ == after_publication(old(broker)@, header, payload@),
        published(old(broker)@, header, payload, result),
{
    if header.payload_len as usize != payload.len() {
        return Err(DaemonError::LengthMismatch);
    }
    let envelope = WireEnvelope {
        event: header.event,
        wire_major: header.wire_major,
        schema_revision: header.schema_revision,
        metadata: header.metadata,
        payload: payload.as_slice(),
    };
    let (routed, clients) = match broker.route_snapshot(envelope) {
        Ok(result) => result,
        Err(BrokerError::Expired) => {
            return Ok(None);
        },
        Err(BrokerError::OriginCapacity) => {
            return Err(DaemonError::OriginTableFull);
        },
    };
    let clients = match clients {
        Some(clients) => clients,
        None => {
            return Ok(None);
        },
    };
    let header = match EnvelopeHeader::from_envelope(&routed) {
        Ok(header) => header,
        Err(_) => {
            return Err(DaemonError::InvalidFrame);
        },
    };
    let frame = UnixFrame::Publish { header, payload };
    match encode_packet(&frame) {
        Ok(packet) => Ok(Some(Delivery { clients, packet })),
        Err(error) => Err(error),
    }
}

/// Serves one frame of a client.
///
/// # Errors
///
/// Fails with [`DaemonError::InvalidFrame`] if the bytes are no frame, and as [`publish`]
/// does.
pub fn serve(broker: &mut Broker, client: ClientId, body: &[u8]) -> (result: Result<
    Option<Delivery>,
    DaemonError,
>)
    requires
        old(broker).wf(),
    ensures
        final(broker).wf(),
        UnixFrame::decode_error(body@) is Some ==> {
            &&& result == Err::<Option<Delivery>, DaemonError>(DaemonError::InvalidFrame)
            &&& final(broker)@ == old(broker)@
        },
        forall|frame: UnixFrame|
            frame.representable() && #[trigger] frame.encoding() == body@ ==> match frame {
                UnixFrame::Subscribe(route) => {
                    &&& result == Ok::<Option<Delivery>, DaemonError>(None)
                    &&& final(broker)@ == old(broker)@.subscribe(route, client)
                },
                UnixFrame::Unsubscribe(route) => {
                    &&& result == Ok::<Option<Delivery>, DaemonError>(None)
                    &&& final(broker)@ == old(broker)@.unsubscribe(route, client)
                },
                UnixFrame::Publish { header, payload } => {
                    &&& final(broker)@ == after_publication(old(broker)@, header, payload@)
                    &&& published(old(broker)@, header, payload, result)
                },
            },
{
    match UnixFrame::decode(body) {
        Err(_) => {
            assert forall|frame: UnixFrame|
                frame.representable() && #[trigger] frame.encoding() == body@ implies false by {
                law_frame_round_trip(frame, frame);
            }
            Err(DaemonError::InvalidFrame)
        },
        Ok(frame) => {
            let ghost found = frame;
            assert forall|other: UnixFrame|
                other.representable() && #[trigger] other.encoding() == body@ implies match other {
                UnixFrame::Publish { header, payload } => {
                    &&& found matches UnixFrame::Publish { header: h, payload: p }
                    &&& h == header
                    &&& p@ == payload@
                },
                _ => found == other,
            } by {
                law_frame_round_trip(other, found);
            }
            match frame {
                UnixFrame::Subscribe(route) => {
                    broker.subscribe(route, client);
                    Ok(None)
                },
                UnixFrame::Unsubscribe(route) => {
                    broker.unsubscribe(route, client);
                    Ok(None)
                },
                UnixFrame::Publish { header, payload } => publish(broker, header, payload),
            }
        },
    }
}

} // verus!
