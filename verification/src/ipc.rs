//! What the two ends of a link agree on: frames, credits, limits and failures.
use crate::bytes::{
    from_le, get_le, law_le_digit, le_bytes, lemma_le_len, lemma_le_round_trip, lemma_le_unique,
    lemma_spans, put_le,
};
use crate::error::{ReceiveError, SendError, TopicError};
use crate::event::{EventId, EventSpec};
use crate::grant::Limits;
use crate::ledger_model::{LeaseRecord, Owner};
use crate::metadata::SchemaRevision;
use crate::reserve::{reserve_exact, Reservation};
use crate::text::{decimal_digits, push_decimal};
use crate::wire::WireError;
use vstd::arithmetic::power::pow;
use vstd::prelude::*;
use vstd::string::StringExecFns;

verus! {

/// Length of the header before a payload.
pub const HEADER_BYTES: usize = 38;

/// Length of a credit.
pub const CREDIT_BYTES: usize = 9;

/// What a socket failure is about.
#[derive(Clone, Copy, Debug, PartialEq, Eq, Structural)]
pub enum IoKind {
    /// There is no such entity.
    NotFound,
    /// The operation is not permitted.
    PermissionDenied,
    /// The peer refused the connection.
    ConnectionRefused,
    /// The peer reset the connection.
    ConnectionReset,
    /// The peer gave the connection up.
    ConnectionAborted,
    /// There is no connection yet.
    NotConnected,
    /// The address is in use.
    AddrInUse,
    /// The address is not to be had.
    AddrNotAvailable,
    /// The peer does not read any more.
    BrokenPipe,
    /// The entity exists already.
    AlreadyExists,
    /// The operation would have to wait.
    WouldBlock,
    /// A parameter is not valid.
    InvalidInput,
    /// The data are not valid.
    InvalidData,
    /// The operation took too long.
    TimedOut,
    /// The socket accepts no more bytes.
    WriteZero,
    /// The operation was interrupted.
    Interrupted,
    /// The platform does not have the operation.
    Unsupported,
    /// The peer closed the socket before all bytes had come.
    UnexpectedEof,
    /// There was no memory for the operation.
    OutOfMemory,
    /// Any other failure.
    Other,
}

/// A socket failure.
#[derive(Debug)]
pub struct IoFailure {
    /// What it is about.
    pub kind: IoKind,
    /// Its description.
    pub text: String,
}

/// Failure of one pre-authorized, unidirectional IPC link.
#[derive(Debug)]
#[non_exhaustive]
pub enum IpcError {
    /// The socket closed or failed, including during a partial frame.
    Io(IoFailure),
    /// The grant lacks authority or an available resource reservation.
    Topic(TopicError),
    /// The event codec rejected a payload or schema revision.
    Wire(WireError),
    /// The local receiving endpoint terminated or exhausted its waiters.
    Receive(ReceiveError),
    /// The local destination rejected admission.
    Send(SendError<()>),
    /// Local authority was revoked. Peer acknowledgement is unnecessary.
    Revoked,
    /// The peer sent an invalid header, sequence, or unsolicited credit.
    Protocol,
    /// An encoded payload exceeds this link's explicit byte bound.
    Oversized {
        /// Declared or encoded payload size.
        length: usize,
        /// Configured payload bound.
        limit: usize,
    },
    /// An observer lost source data. This link terminates without hiding the gap.
    Gap {
        /// First unavailable sequence, inclusive.
        from: u64,
        /// First available sequence, exclusive end of the gap.
        to: u64,
    },
}

/// What a failure of a link says.
pub enum IpcFault {
    /// See [`IpcError::Io`].
    Io(IoKind, Seq<char>),
    /// See [`IpcError::Topic`].
    Topic(TopicError),
    /// See [`IpcError::Wire`].
    Wire(WireError),
    /// See [`IpcError::Receive`].
    Receive(ReceiveError),
    /// See [`IpcError::Send`].
    Send(SendError<()>),
    /// See [`IpcError::Revoked`].
    Revoked,
    /// See [`IpcError::Protocol`].
    Protocol,
    /// See [`IpcError::Oversized`].
    Oversized(nat, nat),
    /// See [`IpcError::Gap`].
    Gap(u64, u64),
}

impl View for IpcError {
    type V = IpcFault;

    open spec fn view(&self) -> IpcFault {
        match self {
            IpcError::Io(failure) => IpcFault::Io(failure.kind, failure.text@),
            IpcError::Topic(error) => IpcFault::Topic(*error),
            IpcError::Wire(error) => IpcFault::Wire(*error),
            IpcError::Receive(error) => IpcFault::Receive(*error),
            IpcError::Send(error) => IpcFault::Send(*error),
            IpcError::Revoked => IpcFault::Revoked,
            IpcError::Protocol => IpcFault::Protocol,
            IpcError::Oversized { length, limit } => IpcFault::Oversized(
                *length as nat,
                *limit as nat,
            ),
            IpcError::Gap { from, to } => IpcFault::Gap(*from, *to),
        }
    }
}

impl IpcFault {
    /// The text that [`IpcError::message`] gives.
    pub open spec fn text(self) -> Seq<char> {
        match self {
            IpcFault::Io(kind, text) => "IPC link I/O error: "@ + text,
            IpcFault::Topic(error) => "IPC topic error: "@ + error.text(),
            IpcFault::Wire(error) => "IPC wire error: "@ + error.text(),
            IpcFault::Receive(error) => "IPC receive error: "@ + error.text(),
            IpcFault::Send(error) => "IPC send error: "@ + error.text(),
            IpcFault::Revoked => "IPC link authority has been revoked"@,
            IpcFault::Protocol => "IPC protocol error"@,
            IpcFault::Oversized(length, limit) => "IPC payload is too large: "@ + decimal_digits(
                length,
            ) + " bytes exceeds "@ + decimal_digits(limit),
            IpcFault::Gap(from, to) => "IPC stream gap from sequence "@ + decimal_digits(
                from as nat,
            ) + " to "@ + decimal_digits(to as nat),
        }
    }
}

impl IpcError {
    /// Describes the failure.
    pub fn message(&self) -> (message: String)
        ensures
            message@ == self@.text(),
    {
        match self {
            IpcError::Io(failure) => joined("IPC link I/O error: ", failure.text.as_str()),
            IpcError::Topic(error) => joined("IPC topic error: ", error.message().as_str()),
            IpcError::Wire(error) => joined("IPC wire error: ", error.message().as_str()),
            IpcError::Receive(error) => joined("IPC receive error: ", error.message().as_str()),
            IpcError::Send(error) => joined("IPC send error: ", error.message().as_str()),
            IpcError::Revoked => String::from_str("IPC link authority has been revoked"),
            IpcError::Protocol => String::from_str("IPC protocol error"),
            IpcError::Oversized { length, limit } => {
                let mut message = String::from_str("IPC payload is too large: ");
                push_decimal(&mut message, *length as u64);
                message.append(" bytes exceeds ");
                push_decimal(&mut message, *limit as u64);
                message
            },
            IpcError::Gap { from, to } => {
                let mut message = String::from_str("IPC stream gap from sequence ");
                push_decimal(&mut message, *from);
                message.append(" to ");
                push_decimal(&mut message, *to);
                message
            },
        }
    }
}

fn joined(before: &str, after: &str) -> (message: String)
    ensures
        message@ == before@ + after@,
{
    let mut message = String::from_str(before);
    message.append(after);
    message
}

/// What a link of that payload bound takes from its grant.
pub open spec fn link_allowance(max_payload: nat) -> Limits {
    Limits {
        connections: 2,
        retained_items: 1,
        waiters: 2,
        bytes: (max_payload + 56) as usize,
        ..Limits::none()
    }
}

/// The charge that a link of that payload bound holds at its grant.
pub open spec fn link_charge(node: nat, max_payload: nat) -> LeaseRecord {
    LeaseRecord { node, event: None, usage: link_allowance(max_payload), owner: Owner::Link }
}

/// The payload bound fits the wire and the machine.
pub open spec fn bound_fits(max_payload: nat) -> bool {
    max_payload <= u32::MAX && max_payload + 56 <= usize::MAX
}

/// What a link takes from its grant: two sockets, one item in flight, two waiters, and
/// the bytes of one frame and two credits.
///
/// # Errors
///
/// Returns [`TopicError::InvalidConfig`] for a payload bound that the wire cannot express.
pub fn link_limits(max_payload: usize) -> (result: Result<Limits, IpcError>)
    ensures
        if bound_fits(max_payload as nat) {
            result == Ok::<Limits, IpcError>(link_allowance(max_payload as nat))
        } else {
            result == Err::<Limits, IpcError>(IpcError::Topic(TopicError::InvalidConfig))
        },
{
    if max_payload > u32::MAX as usize {
        return Err(IpcError::Topic(TopicError::InvalidConfig));
    }
    match max_payload.checked_add(HEADER_BYTES + 2 * CREDIT_BYTES) {
        Some(bytes) => Ok(
            Limits { connections: 2, retained_items: 1, waiters: 2, bytes, ..Limits::zero() },
        ),
        None => Err(IpcError::Topic(TopicError::InvalidConfig)),
    }
}

/// What comes of a request for a payload buffer: that many zeros, or a failure.
pub open spec fn buffered(
    granted: bool,
    max_payload: nat,
    result: Result<Vec<u8>, IpcError>,
) -> bool {
    if granted {
        &&& result matches Ok(buffer)
        &&& buffer@ == Seq::new(max_payload, |i: int| 0u8)
    } else {
        result == Err::<Vec<u8>, IpcError>(IpcError::Topic(TopicError::Capacity))
    }
}

/// Fills a buffer that has room for one payload with zeros.
///
/// # Errors
///
/// Returns [`TopicError::Capacity`] when there is no buffer.
pub fn filled(buffer: Option<Vec<u8>>, max_payload: usize) -> (result: Result<Vec<u8>, IpcError>)
    requires
        buffer matches Some(bytes) ==> bytes@.len() == 0,
    ensures
        buffered(buffer is Some, max_payload as nat, result),
{
    match buffer {
        Some(bytes) => {
            let mut bytes = bytes;
            bytes.resize(max_payload, 0u8);
            assert(bytes@ =~= Seq::new(max_payload as nat, |i: int| 0u8));
            Ok(bytes)
        },
        None => Err(IpcError::Topic(TopicError::Capacity)),
    }
}

/// Reserves a buffer for one payload.
///
/// # Errors
///
/// Returns [`TopicError::Capacity`] when the machine has no room for it.
pub fn payload_buffer(max_payload: usize) -> (result: Result<Vec<u8>, IpcError>)
    ensures
        exists|room: Reservation| #[trigger]
            room.is_for(max_payload as nat) && buffered(room.granted(), max_payload as nat, result),
{
    let mut buffer: Vec<u8> = Vec::new();
    let room = reserve_exact(&mut buffer, max_payload);
    assert(room.is_for(max_payload as nat));
    if room.is_granted() {
        filled(Some(buffer), max_payload)
    } else {
        filled(None, max_payload)
    }
}

/// The first bytes of every header.
pub open spec fn magic() -> Seq<u8> {
    seq![72u8, 87u8, 89u8, 49u8]
}

/// A header on the wire.
pub open spec fn header_bytes(
    event: EventId,
    major: u16,
    revision: u32,
    sequence: u64,
    length: nat,
) -> Seq<u8> {
    magic() + le_bytes(event.0 as nat, 16) + le_bytes(major as nat, 2) + le_bytes(
        revision as nat,
        4,
    ) + le_bytes(sequence as nat, 8) + le_bytes(length, 4)
}

/// The revision that a header gives.
pub open spec fn header_revision(header: Seq<u8>) -> SchemaRevision {
    SchemaRevision(from_le(header.subrange(22, 26)) as u32)
}

/// The sequence that a header gives.
pub open spec fn header_sequence(header: Seq<u8>) -> u64 {
    from_le(header.subrange(26, 34)) as u64
}

/// The payload length that a header gives.
pub open spec fn header_length(header: Seq<u8>) -> nat {
    from_le(header.subrange(34, 38))
}

/// Why a header is refused, if it is.
pub open spec fn header_fault(
    header: Seq<u8>,
    event: EventId,
    major: u16,
    limit: nat,
) -> Option<IpcFault> {
    if header.subrange(0, 4) != magic() || from_le(header.subrange(4, 20)) != event.0 || from_le(
        header.subrange(20, 22),
    ) != major {
        Some(IpcFault::Protocol)
    } else if header_length(header) > limit {
        Some(IpcFault::Oversized(header_length(header), limit))
    } else {
        None
    }
}

/// Writes the header of one frame.
///
/// # Errors
///
/// Returns [`WireError::InvalidHeader`] if the length exceeds [`u32::MAX`].
pub fn encode_header<E: EventSpec>(sequence: u64, length: usize) -> (result: Result<
    [u8; 38],
    WireError,
>)
    ensures
        if length > u32::MAX {
            result == Err::<[u8; 38], WireError>(WireError::InvalidHeader)
        } else {
            &&& result matches Ok(header)
            &&& header@ == header_bytes(
                E::ID,
                E::WIRE_MAJOR,
                E::SCHEMA_REVISION,
                sequence,
                length as nat,
            )
        },
{
    if length > u32::MAX as usize {
        return Err(WireError::InvalidHeader);
    }
    proof {
        lemma_le_len(E::ID.0 as nat, 16);
        lemma_le_len(E::WIRE_MAJOR as nat, 2);
        lemma_le_len(E::SCHEMA_REVISION as nat, 4);
        lemma_le_len(sequence as nat, 8);
        lemma_le_len(length as nat, 4);
    }
    let mut header = [0u8;38];
    header[0] = 72;
    header[1] = 87;
    header[2] = 89;
    header[3] = 49;
    put_le(&mut header, 4, E::ID.as_u128(), 16);
    put_le(&mut header, 20, E::WIRE_MAJOR as u128, 2);
    put_le(&mut header, 22, E::SCHEMA_REVISION as u128, 4);
    put_le(&mut header, 26, sequence as u128, 8);
    put_le(&mut header, 34, length as u128, 4);
    assert(header@ =~= header_bytes(
        E::ID,
        E::WIRE_MAJOR,
        E::SCHEMA_REVISION,
        sequence,
        length as nat,
    ));
    Ok(header)
}

/// Reads the header of one frame: its sequence, schema revision and payload length.
///
/// # Errors
///
/// Returns [`IpcError::Protocol`] for a header of another protocol, event or wire
/// generation, and [`IpcError::Oversized`] for a payload over the bound.
pub fn decode_header<E: EventSpec>(header: &[u8], max_payload: usize) -> (result: Result<
    (u64, SchemaRevision, usize),
    IpcError,
>)
    requires
        header@.len() == HEADER_BYTES,
    ensures
        match header_fault(header@, E::ID, E::WIRE_MAJOR, max_payload as nat) {
            Some(fault) => result is Err && result->Err_0@ == fault,
            None => {
                &&& result matches Ok((sequence, revision, length))
                &&& sequence == header_sequence(header@)
                &&& revision == header_revision(header@)
                &&& length == header_length(header@)
                &&& length <= max_payload
            },
        },
{
    proof {
        lemma_spans();
        lemma_le_unique(header@.subrange(20, 22));
        lemma_le_unique(header@.subrange(22, 26));
        lemma_le_unique(header@.subrange(26, 34));
        lemma_le_unique(header@.subrange(34, 38));
    }
    let event = EventId::from_u128(get_le(header, 4, 16));
    let major = get_le(header, 20, 2) as u16;
    let known = header[0] == 72 && header[1] == 87 && header[2] == 89 && header[3] == 49;
    proof {
        if known {
            assert(header@.subrange(0, 4) =~= magic());
        } else if header@.subrange(0, 4) == magic() {
            assert(header@[0] == magic()[0]);
            assert(header@[1] == magic()[1]);
            assert(header@[2] == magic()[2]);
            assert(header@[3] == magic()[3]);
        }
    }
    if !known || event != E::ID || major != E::WIRE_MAJOR {
        return Err(IpcError::Protocol);
    }
    let revision = SchemaRevision(get_le(header, 22, 4) as u32);
    let sequence = get_le(header, 26, 8) as u64;
    let length = get_le(header, 34, 4) as usize;
    if length > max_payload {
        return Err(IpcError::Oversized { length, limit: max_payload });
    }
    Ok((sequence, revision, length))
}

/// A reader of the same event takes from a header what its writer put there.
pub proof fn law_link_header(
    event: EventId,
    major: u16,
    revision: u32,
    sequence: u64,
    length: nat,
    limit: nat,
)
    requires
        length <= u32::MAX,
    ensures
        ({
            let header = header_bytes(event, major, revision, sequence, length);
            &&& header.len() == HEADER_BYTES
            &&& header_sequence(header) == sequence
            &&& header_revision(header) == SchemaRevision(revision)
            &&& header_length(header) == length
            &&& header_fault(header, event, major, limit) == if length > limit {
                Some(IpcFault::Oversized(length, limit))
            } else {
                None
            }
        }),
{
    lemma_spans();
    lemma_le_round_trip(event.0 as nat, 16);
    lemma_le_round_trip(major as nat, 2);
    lemma_le_round_trip(revision as nat, 4);
    lemma_le_round_trip(sequence as nat, 8);
    lemma_le_round_trip(length, 4);
    let header = header_bytes(event, major, revision, sequence, length);
    assert(header.subrange(0, 4) =~= magic());
    assert(header.subrange(4, 20) =~= le_bytes(event.0 as nat, 16));
    assert(header.subrange(20, 22) =~= le_bytes(major as nat, 2));
    assert(header.subrange(22, 26) =~= le_bytes(revision as nat, 4));
    assert(header.subrange(26, 34) =~= le_bytes(sequence as nat, 8));
    assert(header.subrange(34, 38) =~= le_bytes(length, 4));
}

/// A reader of another event or wire generation refuses the header.
pub proof fn law_link_header_foreign(
    event: EventId,
    major: u16,
    revision: u32,
    sequence: u64,
    length: nat,
    reader: EventId,
    reader_major: u16,
    limit: nat,
)
    requires
        length <= u32::MAX,
        event != reader || major != reader_major,
    ensures
        header_fault(
            header_bytes(event, major, revision, sequence, length),
            reader,
            reader_major,
            limit,
        ) == Some(IpcFault::Protocol),
{
    lemma_spans();
    law_link_header(event, major, revision, sequence, length, limit);
    lemma_le_round_trip(event.0 as nat, 16);
    lemma_le_round_trip(major as nat, 2);
    lemma_le_len(revision as nat, 4);
    lemma_le_len(sequence as nat, 8);
    lemma_le_len(length, 4);
    let header = header_bytes(event, major, revision, sequence, length);
    assert(header.subrange(4, 20) =~= le_bytes(event.0 as nat, 16));
    assert(header.subrange(20, 22) =~= le_bytes(major as nat, 2));
}

/// A credit on the wire.
pub open spec fn credit_bytes(sequence: u64) -> Seq<u8> {
    seq![1u8] + le_bytes(sequence as nat, 8)
}

/// The bytes are the credit for `sequence`.
pub open spec fn is_credit(bytes: Seq<u8>, sequence: u64) -> bool {
    bytes[0] == 1 && from_le(bytes.subrange(1, 9)) == sequence
}

/// Writes a credit.
pub fn encode_credit(sequence: u64) -> (credit: [u8; 9])
    ensures
        credit@ == credit_bytes(sequence),
        credit@.len() == CREDIT_BYTES,
{
    proof {
        lemma_le_len(sequence as nat, 8);
    }
    let mut credit = [1u8;9];
    put_le(&mut credit, 1, sequence as u128, 8);
    assert(credit@ =~= credit_bytes(sequence));
    credit
}

/// Tests whether the bytes are the credit for `sequence`.
pub fn check_credit(bytes: &[u8], sequence: u64) -> (credited: bool)
    requires
        bytes@.len() == CREDIT_BYTES,
    ensures
        credited == is_credit(bytes@, sequence),
{
    bytes[0] == 1 && get_le(bytes, 1, 8) == sequence as u128
}

/// A credit is taken for its own sequence and for no other.
pub proof fn law_credit(sequence: u64, other: u64)
    ensures
        credit_bytes(sequence).len() == CREDIT_BYTES,
        is_credit(credit_bytes(sequence), other) == (sequence == other),
{
    lemma_spans();
    lemma_le_round_trip(sequence as nat, 8);
    assert(credit_bytes(sequence).subrange(1, 9) =~= le_bytes(sequence as nat, 8));
}

/// Nine bytes are the credit for a sequence exactly if they are what is written for it.
pub proof fn law_credit_unique(bytes: Seq<u8>, sequence: u64)
    requires
        bytes.len() == CREDIT_BYTES,
    ensures
        is_credit(bytes, sequence) <==> bytes == credit_bytes(sequence),
{
    law_credit(sequence, sequence);
    if is_credit(bytes, sequence) {
        lemma_le_unique(bytes.subrange(1, 9));
        assert(bytes =~= seq![1u8] + bytes.subrange(1, 9));
    }
}

/// A credit on the wire: a one, and the sequence, least significant byte first.
pub proof fn law_credit_layout(sequence: u64, i: nat)
    requires
        i < 8,
    ensures
        credit_bytes(sequence).len() == 9,
        credit_bytes(sequence)[0] == 1,
        credit_bytes(sequence)[1 + i as int] as int == (sequence as int / pow(256, i)) % 256,
{
    law_credit(sequence, sequence);
    law_le_digit(sequence as nat, 8, i);
}

/// A header on the wire: the four letters `HWY1`, and the event, the wire major, the schema
/// revision, the sequence and the length of the payload, each least significant byte first.
pub proof fn law_header_layout(
    event: EventId,
    major: u16,
    revision: u32,
    sequence: u64,
    length: nat,
    i: nat,
)
    ensures
        ({
            let header = header_bytes(event, major, revision, sequence, length);
            &&& header.len() == 38
            &&& header[0] == 72 && header[1] == 87 && header[2] == 89 && header[3] == 49
            &&& i < 16 ==> header[4 + i as int] as int == (event.0 as int / pow(256, i)) % 256
            &&& i < 2 ==> header[20 + i as int] as int == (major as int / pow(256, i)) % 256
            &&& i < 4 ==> header[22 + i as int] as int == (revision as int / pow(256, i)) % 256
            &&& i < 8 ==> header[26 + i as int] as int == (sequence as int / pow(256, i)) % 256
            &&& i < 4 ==> header[34 + i as int] as int == (length as int / pow(256, i)) % 256
        }),
{
    lemma_le_len(event.0 as nat, 16);
    lemma_le_len(major as nat, 2);
    lemma_le_len(revision as nat, 4);
    lemma_le_len(sequence as nat, 8);
    lemma_le_len(length, 4);
    if i < 16 {
        law_le_digit(event.0 as nat, 16, i);
    }
    if i < 2 {
        law_le_digit(major as nat, 2, i);
    }
    if i < 4 {
        law_le_digit(revision as nat, 4, i);
        law_le_digit(length, 4, i);
    }
    if i < 8 {
        law_le_digit(sequence as nat, 8, i);
    }
}

/// Which 38 bytes are taken for a header: exactly those that are written for the event and the
/// wire major, with whatever revision and sequence, and with a payload within the limit. Any
/// other event, wire major or beginning is against the protocol; a longer payload is said to
/// be too long.
pub proof fn law_header_accepts(header: Seq<u8>, event: EventId, major: u16, limit: nat)
    requires
        header.len() == HEADER_BYTES,
    ensures
        ({
            let whole = header == header_bytes(
                event,
                major,
                header_revision(header).0,
                header_sequence(header),
                header_length(header),
            );
            header_fault(header, event, major, limit) == if !whole {
                Some(IpcFault::Protocol)
            } else if header_length(header) > limit {
                Some(IpcFault::Oversized(header_length(header), limit))
            } else {
                None
            }
        }),
{
    let revision = header_revision(header).0;
    let sequence = header_sequence(header);
    let length = header_length(header);
    lemma_spans();
    lemma_le_unique(header.subrange(4, 20));
    lemma_le_unique(header.subrange(20, 22));
    lemma_le_unique(header.subrange(22, 26));
    lemma_le_unique(header.subrange(26, 34));
    lemma_le_unique(header.subrange(34, 38));
    law_link_header(event, major, revision, sequence, length, limit);
    let parts = magic() + le_bytes(event.0 as nat, 16) + le_bytes(major as nat, 2) + le_bytes(
        revision as nat,
        4,
    ) + le_bytes(sequence as nat, 8) + le_bytes(length, 4);
    assert(parts == header_bytes(event, major, revision, sequence, length));
    let fields = header.subrange(0, 4) + header.subrange(4, 20) + header.subrange(20, 22)
        + header.subrange(22, 26) + header.subrange(26, 34) + header.subrange(34, 38);
    assert(fields =~= header);
    if header == parts {
        assert(header_fault(parts, event, major, limit) == header_fault(
            header,
            event,
            major,
            limit,
        ));
    }
}

/// The next thing that a link needs.
#[derive(Debug)]
pub enum LinkAction {
    /// Poll the control socket for at most that many bytes.
    PollControl(usize),
    /// Poll the data socket for at most that many bytes.
    Read(usize),
    /// Poll the link's outgoing socket with its outgoing bytes.
    Write,
    /// Return until the link is woken.
    Pending,
    /// Return, and ask to be polled again at once.
    Yield,
    /// The link has ended.
    Done(Result<(), IpcError>),
}

/// What a [`LinkAction`] says.
pub enum LinkReply {
    /// See [`LinkAction::PollControl`].
    PollControl(nat),
    /// See [`LinkAction::Read`].
    Read(nat),
    /// See [`LinkAction::Write`].
    Write,
    /// See [`LinkAction::Pending`].
    Pending,
    /// See [`LinkAction::Yield`].
    Yield,
    /// See [`LinkAction::Done`]; `None` stands for an end without a failure.
    Done(Option<IpcFault>),
}

impl View for LinkAction {
    type V = LinkReply;

    open spec fn view(&self) -> LinkReply {
        match self {
            LinkAction::PollControl(count) => LinkReply::PollControl(*count as nat),
            LinkAction::Read(count) => LinkReply::Read(*count as nat),
            LinkAction::Write => LinkReply::Write,
            LinkAction::Pending => LinkReply::Pending,
            LinkAction::Yield => LinkReply::Yield,
            LinkAction::Done(Ok(_)) => LinkReply::Done(None),
            LinkAction::Done(Err(error)) => LinkReply::Done(Some(error@)),
        }
    }
}

/// The control socket was closed.
pub open spec fn control_closed() -> IpcFault {
    IpcFault::Io(IoKind::UnexpectedEof, "IPC control socket closed"@)
}

/// A socket was closed before all bytes had come.
pub open spec fn early_end() -> IpcFault {
    IpcFault::Io(IoKind::UnexpectedEof, "early eof"@)
}

/// A socket accepts no more bytes.
pub open spec fn write_refused() -> IpcFault {
    IpcFault::Io(IoKind::WriteZero, "write zero"@)
}

pub(crate) fn control_closed_error() -> (error: IpcError)
    ensures
        error@ == control_closed(),
{
    IpcError::Io(
        IoFailure {
            kind: IoKind::UnexpectedEof,
            text: String::from_str("IPC control socket closed"),
        },
    )
}

pub(crate) fn early_end_error() -> (error: IpcError)
    ensures
        error@ == early_end(),
{
    IpcError::Io(IoFailure { kind: IoKind::UnexpectedEof, text: String::from_str("early eof") })
}

pub(crate) fn write_refused_error() -> (error: IpcError)
    ensures
        error@ == write_refused(),
{
    IpcError::Io(IoFailure { kind: IoKind::WriteZero, text: String::from_str("write zero") })
}

} // verus!
