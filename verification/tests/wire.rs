use hiway::broker::{Broker, BrokerError, ClientId, RouteKey, DEFAULT_SEEN_ORIGINS};
use hiway::daemon::{
    encode_packet, packet_length, publish, serve, DaemonError, UnixFrame, MAX_FRAME_BYTES,
};
use hiway::event::{EventId, EventSpec, EventValue};
use hiway::ipc::{check_credit, decode_header, encode_credit, encode_header, link_limits, IpcError};
use hiway::metadata::{
    DedupKey, EventMetadata, OriginId, SchemaRevision, WireEnvelope, WireMajor,
};
use hiway::schema::{
    validate_evolution, validate_schema, FieldKind, FieldPresence, FieldSpec, Schema, SchemaError,
};
use hiway::transform::{AsyncTransform, Then, Transform, TransformOp};
use hiway::wire::{EnvelopeHeader, WireError, ENVELOPE_HEADER_BYTES};

struct Reading;

impl EventSpec for Reading {
    type Payload = u32;
    const ID: EventId = EventId(0x0102_0304_0506_0708_090a_0b0c_0d0e_0f10);
    const WIRE_MAJOR: u16 = 3;
    const SCHEMA_REVISION: u32 = 9;
}

fn metadata(origin: u8, sequence: u64) -> EventMetadata {
    EventMetadata::new(OriginId::new([origin; 16]), sequence, 77)
}

fn envelope(metadata: EventMetadata, payload: &[u8]) -> WireEnvelope<'_> {
    WireEnvelope::new(
        Reading::ID,
        WireMajor(3),
        SchemaRevision(9),
        metadata,
        payload,
    )
}

#[test]
fn event_names_hash_to_identities() {
    assert_eq!(
        EventId::from_name("").as_u128(),
        0x6c62272e07bb014262b821756295c58d
    );
    assert_eq!(
        EventId::from_name("a").as_u128(),
        0xd228cb696f1a8caf78912b704e4a8964
    );
    assert_eq!(EventId::from_u128(7), EventId(7));
    assert_eq!(EventId(0xab).message(), format!("{:032x}", 0xab));
    let value = EventValue::<Reading>::new(5);
    assert!(value.clone() == value);
    assert!(value != EventValue::new(6));
    assert_eq!(value.into_inner(), 5);
}

#[test]
fn metadata_identifies_publications_and_counts_hops() {
    let origin = OriginId::new([3; 16]);
    assert_eq!(origin.as_bytes(), [3; 16]);
    assert_eq!(OriginId::zero().as_bytes(), [0; 16]);
    assert!(origin.same(&OriginId::new([3; 16])));
    assert!(!origin.same(&OriginId::default()));
    let mut data = EventMetadata::new(origin, 8, 77);
    assert_eq!(
        data.dedup_key(),
        DedupKey {
            origin,
            sequence: 8
        }
    );
    assert!(data.consume_hop());
    assert_eq!(data.ttl, None);
    data.ttl = Some(1);
    assert!(data.consume_hop());
    assert_eq!(data.ttl, Some(0));
    assert!(!data.consume_hop());
    assert_eq!(data.ttl, Some(0));
    assert_eq!(WireMajor::default(), WireMajor(0));
    assert_eq!(SchemaRevision::default(), SchemaRevision(0));
    assert_eq!(
        EventMetadata::default(),
        EventMetadata::new(OriginId::zero(), 0, 0)
    );
}

#[test]
fn envelope_headers_have_a_fixed_layout_and_round_trip() {
    let mut data = metadata(0xee, 0x1122);
    data.ttl = Some(5);
    let header = EnvelopeHeader::for_event::<Reading>(data, 6).unwrap();
    assert_eq!(
        EnvelopeHeader::from_envelope(&envelope(data, &[0; 6])),
        Ok(header)
    );
    let mut bytes = [0xff; ENVELOPE_HEADER_BYTES + 2];
    header.encode(&mut bytes).unwrap();
    let mut expected = Reading::ID.as_u128().to_le_bytes().to_vec();
    expected.extend_from_slice(&3_u16.to_le_bytes());
    expected.extend_from_slice(&9_u32.to_le_bytes());
    expected.extend_from_slice(&[0xee; 16]);
    expected.extend_from_slice(&0x1122_u64.to_le_bytes());
    expected.extend_from_slice(&77_u64.to_le_bytes());
    expected.extend_from_slice(&5_u32.to_le_bytes());
    expected.extend_from_slice(&u64::MAX.to_le_bytes());
    expected.extend_from_slice(&6_u32.to_le_bytes());
    assert_eq!(bytes[..ENVELOPE_HEADER_BYTES], expected);
    assert_eq!(bytes[ENVELOPE_HEADER_BYTES..], [0xff; 2]);
    assert_eq!(EnvelopeHeader::decode(&bytes), Ok(header));
}

#[test]
fn envelope_headers_report_what_does_not_fit() {
    let header = EnvelopeHeader::for_event::<Reading>(metadata(1, 2), 3).unwrap();
    assert_eq!(
        header.encode(&mut [0; ENVELOPE_HEADER_BYTES - 1]),
        Err(WireError::BufferTooSmall)
    );
    assert_eq!(
        EnvelopeHeader::decode(&[0; ENVELOPE_HEADER_BYTES - 1]),
        Err(WireError::Truncated)
    );
    assert_eq!(
        EnvelopeHeader::for_event::<Reading>(metadata(1, 2), u32::MAX as usize + 1),
        Err(WireError::InvalidHeader)
    );
    let mut reserved = header;
    reserved.metadata.ttl = Some(u32::MAX);
    assert_eq!(
        reserved.encode(&mut [0; ENVELOPE_HEADER_BYTES]),
        Err(WireError::InvalidHeader)
    );
    let mut reserved = header;
    reserved.metadata.fabric_sequence = Some(u64::MAX);
    assert_eq!(
        reserved.encode(&mut [0; ENVELOPE_HEADER_BYTES]),
        Err(WireError::InvalidHeader)
    );
}

#[test]
fn wire_failures_describe_themselves() {
    for (error, text) in [
        (WireError::BufferTooSmall, "output buffer is too small"),
        (WireError::InvalidPayload, "payload is invalid"),
        (
            WireError::UnsupportedRevision,
            "schema revision is unsupported",
        ),
        (WireError::Truncated, "wire envelope is truncated"),
        (WireError::InvalidHeader, "wire envelope header is invalid"),
    ] {
        assert_eq!(error.message(), text);
    }
}

#[test]
fn a_broker_routes_each_publication_once_to_everyone_interested() {
    let route = RouteKey::for_event::<Reading>();
    let other = RouteKey {
        wire_major: WireMajor(4),
        ..route
    };
    let mut broker = Broker::new();
    assert_eq!(DEFAULT_SEEN_ORIGINS, 4096);
    broker.subscribe(route, ClientId(1));
    broker.subscribe(route, ClientId(2));
    broker.subscribe(route, ClientId(2));
    broker.subscribe(other, ClientId(3));
    assert!(broker.has_interest(route));
    let mut data = metadata(1, 10);
    data.ttl = Some(2);
    let mut delivered = Vec::new();
    let routed = broker.route(envelope(data, b"ab"), |client, envelope| {
        delivered.push((client, envelope.metadata.ttl, envelope.payload.to_vec()));
    });
    assert_eq!(routed, Ok(2));
    delivered.sort_by_key(|entry| entry.0 .0);
    assert_eq!(
        delivered,
        [
            (ClientId(1), Some(1), b"ab".to_vec()),
            (ClientId(2), Some(1), b"ab".to_vec())
        ]
    );
    assert_eq!(broker.seen_origin_count(), 1);
    for sequence in [10, 9] {
        let (_, clients) = broker
            .route_snapshot(envelope(metadata(1, sequence), b"ab"))
            .unwrap();
        assert_eq!(clients, None);
    }
    let (_, clients) = broker
        .route_snapshot(envelope(metadata(1, 11), b"ab"))
        .unwrap();
    let mut clients: Vec<ClientId> = clients.unwrap().to_vec();
    clients.sort_by_key(|client| client.0);
    assert_eq!(clients, [ClientId(1), ClientId(2)]);
    assert!(broker.forget_origin(OriginId::new([1; 16])));
    assert!(!broker.forget_origin(OriginId::new([1; 16])));
    assert!(matches!(
        broker.route_snapshot(envelope(metadata(1, 10), b"ab")),
        Ok((_, Some(_)))
    ));
    broker.unsubscribe(route, ClientId(1));
    broker.remove_client(ClientId(2));
    assert!(!broker.has_interest(route));
    assert!(broker.has_interest(other));
}

#[test]
fn a_broker_refuses_expired_publications_and_too_many_origins() {
    let route = RouteKey::for_event::<Reading>();
    let mut broker = Broker::with_seen_origin_capacity(1);
    broker.subscribe(route, ClientId(1));
    let mut expired = metadata(1, 1);
    expired.ttl = Some(0);
    assert_eq!(
        broker.route_snapshot(envelope(expired, b"")),
        Err(BrokerError::Expired)
    );
    assert_eq!(broker.seen_origin_count(), 0);
    assert_eq!(broker.route(envelope(metadata(1, 1), b""), |_, _| {}), Ok(1));
    assert_eq!(
        broker.route_snapshot(envelope(metadata(2, 1), b"")),
        Err(BrokerError::OriginCapacity)
    );
    assert!(broker.forget_origin(OriginId::new([1; 16])));
    assert_eq!(broker.route(envelope(metadata(2, 1), b""), |_, _| {}), Ok(1));
}

#[test]
fn daemon_frames_round_trip_behind_their_length() {
    let route = RouteKey::for_event::<Reading>();
    let header = EnvelopeHeader::for_event::<Reading>(metadata(1, 2), 3).unwrap();
    let frames = [
        (UnixFrame::Subscribe(route), 19),
        (UnixFrame::Unsubscribe(route), 19),
        (
            UnixFrame::Publish {
                header,
                payload: vec![7, 8, 9],
            },
            74,
        ),
    ];
    for (tag, (frame, length)) in frames.iter().enumerate() {
        let packet = encode_packet(frame).unwrap();
        let prefix: [u8; 4] = packet[..4].try_into().unwrap();
        assert_eq!(packet_length(prefix), Ok(*length));
        assert_eq!(packet.len(), 4 + length);
        assert_eq!(packet[4] as usize, tag);
        assert_eq!(UnixFrame::decode(&packet[4..]).as_ref(), Ok(frame));
    }
    assert_eq!(
        packet_length((MAX_FRAME_BYTES as u32 + 1).to_be_bytes()),
        Err(DaemonError::FrameTooLarge)
    );
    assert_eq!(
        packet_length((MAX_FRAME_BYTES as u32).to_be_bytes()),
        Ok(MAX_FRAME_BYTES)
    );
    assert_eq!(
        encode_packet(&UnixFrame::Publish {
            header,
            payload: vec![0; MAX_FRAME_BYTES],
        }),
        Err(DaemonError::FrameTooLarge)
    );
    assert!(UnixFrame::decode(&[]).is_err());
    assert!(UnixFrame::decode(&[3; 19]).is_err());
}

#[test]
fn a_daemon_serves_subscriptions_and_publications() {
    let route = RouteKey::for_event::<Reading>();
    let mut broker = Broker::with_seen_origin_capacity(1);
    let subscribe = UnixFrame::Subscribe(route).encode().unwrap();
    assert_eq!(serve(&mut broker, ClientId(4), &subscribe), Ok(None));
    let mut data = metadata(1, 2);
    data.ttl = Some(3);
    let header = EnvelopeHeader::for_event::<Reading>(data, 2).unwrap();
    let body = UnixFrame::Publish {
        header,
        payload: vec![5, 6],
    }
    .encode()
    .unwrap();
    let delivery = serve(&mut broker, ClientId(9), &body).unwrap().unwrap();
    assert_eq!(delivery.clients.to_vec(), [ClientId(4)]);
    let mut forwarded = header;
    forwarded.metadata.ttl = Some(2);
    forwarded.metadata.fabric_sequence = Some(1);
    assert_eq!(
        delivery.packet,
        encode_packet(&UnixFrame::Publish {
            header: forwarded,
            payload: vec![5, 6],
        })
        .unwrap()
    );
    assert_eq!(serve(&mut broker, ClientId(9), &body), Ok(None));
    assert_eq!(
        serve(&mut broker, ClientId(9), &[9]),
        Err(DaemonError::InvalidFrame)
    );
    assert_eq!(
        publish(&mut broker, header, vec![5]),
        Err(DaemonError::LengthMismatch)
    );
    let foreign = EnvelopeHeader::for_event::<Reading>(metadata(2, 2), 0).unwrap();
    assert_eq!(
        publish(&mut broker, foreign, vec![]),
        Err(DaemonError::OriginTableFull)
    );
    let mut expired = header;
    expired.metadata.sequence = 3;
    expired.metadata.ttl = Some(0);
    assert_eq!(publish(&mut broker, expired, vec![5, 6]), Ok(None));
    let unsubscribe = UnixFrame::Unsubscribe(route).encode().unwrap();
    assert_eq!(serve(&mut broker, ClientId(4), &unsubscribe), Ok(None));
    assert!(!broker.has_interest(route));
}

#[test]
fn daemon_failures_describe_themselves() {
    for (error, text) in [
        (DaemonError::InvalidFrame, "invalid Unix frame"),
        (
            DaemonError::LengthMismatch,
            "payload length does not match envelope header",
        ),
        (DaemonError::OriginTableFull, "broker origin table is full"),
        (DaemonError::FrameTooLarge, "Unix frame is too large"),
    ] {
        assert_eq!(error.message(), text);
    }
}

#[test]
fn link_headers_carry_identity_sequence_and_length() {
    let header = encode_header::<Reading>(0x55, 6).unwrap();
    let mut expected = b"HWY1".to_vec();
    expected.extend_from_slice(&Reading::ID.as_u128().to_le_bytes());
    expected.extend_from_slice(&3_u16.to_le_bytes());
    expected.extend_from_slice(&9_u32.to_le_bytes());
    expected.extend_from_slice(&0x55_u64.to_le_bytes());
    expected.extend_from_slice(&6_u32.to_le_bytes());
    assert_eq!(header.to_vec(), expected);
    assert!(
        matches!(decode_header::<Reading>(&header, 6), Ok((0x55, SchemaRevision(9), 6)))
    );
    assert!(matches!(
        decode_header::<Reading>(&header, 5),
        Err(IpcError::Oversized {
            length: 6,
            limit: 5
        })
    ));
    let mut foreign = header;
    foreign[20] ^= 1;
    assert!(matches!(
        decode_header::<Reading>(&foreign, 6),
        Err(IpcError::Protocol)
    ));
    let credit = encode_credit(0x0102);
    assert_eq!(credit, [1, 2, 1, 0, 0, 0, 0, 0, 0]);
    assert!(check_credit(&credit, 0x0102));
    assert!(!check_credit(&credit, 0x0103));
    let limits = link_limits(4).unwrap();
    assert_eq!(
        (
            limits.connections,
            limits.bytes,
            limits.waiters,
            limits.retained_items
        ),
        (2, 60, 2, 1)
    );
}

fn field(tag: u32, presence: FieldPresence) -> FieldSpec {
    FieldSpec {
        tag,
        kind: FieldKind::Unsigned,
        presence,
    }
}

fn schema<'a>(fields: &'a [FieldSpec], reserved_tags: &'a [u32]) -> Schema<'a> {
    Schema {
        event: Reading::ID,
        wire_major: WireMajor(3),
        revision: SchemaRevision(9),
        fields,
        reserved_tags,
    }
}

#[test]
fn schemas_use_every_tag_once() {
    let required = field(1, FieldPresence::Required);
    let optional = field(2, FieldPresence::Optional);
    assert_eq!(validate_schema(&schema(&[required, optional], &[3])), Ok(()));
    for (fields, reserved, tag) in [
        (&[required, optional, required][..], &[][..], 1),
        (&[required, optional][..], &[2][..], 2),
        (&[required][..], &[4, 5, 4][..], 4),
    ] {
        assert_eq!(
            validate_schema(&schema(fields, reserved)),
            Err(SchemaError::DuplicateTag(tag))
        );
    }
}

#[test]
fn schemas_evolve_compatibly() {
    let required = field(1, FieldPresence::Required);
    let optional = field(2, FieldPresence::Optional);
    let fields = [required, optional];
    let previous = schema(&fields, &[7]);
    let grown = [required, field(3, FieldPresence::Defaulted)];
    assert_eq!(validate_evolution(&previous, &previous), Ok(()));
    assert_eq!(
        validate_evolution(&previous, &schema(&grown, &[2, 7])),
        Ok(())
    );
    let mut other = previous;
    other.event = EventId(1);
    assert_eq!(
        validate_evolution(&previous, &other),
        Err(SchemaError::EventChanged)
    );
    let mut other = previous;
    other.wire_major = WireMajor(4);
    assert_eq!(
        validate_evolution(&previous, &other),
        Err(SchemaError::MajorChanged)
    );
    let changed = [
        FieldSpec {
            kind: FieldKind::Text,
            ..required
        },
        optional,
    ];
    let promoted = [required, field(2, FieldPresence::Required)];
    let demoted = [field(1, FieldPresence::Optional), optional];
    let added = [required, optional, field(3, FieldPresence::Required)];
    let reused = [required, optional, field(7, FieldPresence::Optional)];
    for (fields, reserved, error) in [
        (&changed[..], &[7][..], SchemaError::FieldKindChanged(1)),
        (&promoted[..], &[7][..], SchemaError::NewlyRequired(2)),
        (
            &demoted[..],
            &[7][..],
            SchemaError::RequiredFieldMadeOptional(1),
        ),
        (&added[..], &[7][..], SchemaError::NewlyRequired(3)),
        (
            &fields[..1],
            &[7][..],
            SchemaError::RemovedTagNotReserved(2),
        ),
        (&reused[..], &[][..], SchemaError::ReservedTagReused(7)),
        (
            &[required, required][..],
            &[7][..],
            SchemaError::DuplicateTag(1),
        ),
    ] {
        assert_eq!(
            validate_evolution(&previous, &schema(fields, reserved)),
            Err(error)
        );
    }
}

#[test]
fn schema_failures_describe_themselves() {
    for (error, text) in [
        (SchemaError::DuplicateTag(12), "schema tag 12 is duplicated"),
        (
            SchemaError::FieldKindChanged(0),
            "field kind changed for schema tag 0",
        ),
        (SchemaError::NewlyRequired(3), "schema tag 3 became required"),
        (
            SchemaError::RequiredFieldMadeOptional(4),
            "required schema tag 4 became optional",
        ),
        (
            SchemaError::RemovedTagNotReserved(5),
            "removed schema tag 5 is not reserved",
        ),
        (
            SchemaError::ReservedTagReused(u32::MAX),
            "reserved schema tag 4294967295 was reused",
        ),
        (SchemaError::EventChanged, "schema event identity changed"),
        (SchemaError::MajorChanged, "schema wire major changed"),
    ] {
        assert_eq!(error.message(), text);
    }
}

#[test]
fn transforms_compose_in_order() {
    let double = Transform::new(|value: u32| value * 2);
    let describe = Transform::new(|value: u32| format!("<{value}>"));
    assert_eq!(double.apply(4), 8);
    assert_eq!(Then::new(double, describe).apply(5), "<10>");
    let eventual = AsyncTransform::new(|value: u32| std::future::ready(value + 1));
    assert_eq!(eventual.start(1).into_inner(), 2);
    let eventual = Transform::new_async(|value: u32| std::future::ready(value + 2));
    assert_eq!(eventual.start(1).into_inner(), 3);
}

#[test]
fn commits_are_numbered_over_all_calls_and_interest_follows_the_last_word() {
    let route = RouteKey::for_event::<Reading>();
    let mut broker = Broker::new();
    let mut numbers = Vec::new();
    let mut interested = Vec::new();
    for sequence in [3, 3, 4, 2, 6] {
        broker.subscribe(route, ClientId(sequence));
        if sequence == 4 {
            broker.remove_client(ClientId(3));
        }
        let (routed, clients) = broker
            .route_snapshot(envelope(metadata(1, sequence), b""))
            .unwrap();
        if let Some(clients) = clients {
            numbers.push(routed.metadata.fabric_sequence);
            interested.push(clients.to_vec());
        }
    }
    assert_eq!(numbers, [Some(1), Some(2), Some(3)]);
    assert_eq!(
        interested,
        [
            vec![ClientId(3)],
            vec![ClientId(4)],
            vec![ClientId(4), ClientId(2), ClientId(6)]
        ]
    );
    assert!(broker.forget_origin(OriginId::new([1; 16])));
    let (routed, _) = broker
        .route_snapshot(envelope(metadata(1, 2), b""))
        .unwrap();
    assert_eq!(routed.metadata.fabric_sequence, Some(4));
}

#[test]
fn refused_and_repeated_envelopes_are_delivered_to_nobody() {
    let route = RouteKey::for_event::<Reading>();
    let mut broker = Broker::with_seen_origin_capacity(1);
    for client in [7, 3, 5] {
        broker.subscribe(route, ClientId(client));
    }
    let mut expired = metadata(1, 2);
    expired.ttl = Some(0);
    let mut delivered = Vec::new();
    for (data, result) in [
        (metadata(1, 1), Ok(3)),
        (metadata(1, 1), Ok(0)),
        (expired, Err(BrokerError::Expired)),
        (metadata(2, 1), Err(BrokerError::OriginCapacity)),
        (metadata(1, 2), Ok(3)),
    ] {
        let routed = broker.route(envelope(data, b"xy"), |client, envelope| {
            delivered.push((
                client.0,
                envelope.metadata.fabric_sequence,
                envelope.payload.to_vec(),
            ));
        });
        assert_eq!(routed, result);
    }
    assert_eq!(
        delivered,
        [(7, 1), (3, 1), (5, 1), (7, 2), (3, 2), (5, 2)]
            .map(|(client, number)| (client, Some(number), b"xy".to_vec()))
    );
}
