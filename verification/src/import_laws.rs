//! What an importing link makes of each event, by what its frame and its sockets hold.
use crate::fabric_model::{Declaration, FabricView, SendVerdict};
use crate::ipc::{
    header_bytes, law_header_accepts, law_link_header, IoKind, IpcFault, LinkReply,
};
use crate::metadata::SchemaRevision;
use crate::payload::Carries;
use crate::unix_import::{ImportInput, ImportStage, ImportView};
use crate::wire::WireError;
use vstd::prelude::*;

verus! {

/// What an attempt of local admission makes of the link: once the payload is admitted, the
/// credit for its sequence is owed, and only then; while it waits, the link waits with it; and
/// if it is refused for good, the link ends with the reason.
pub open spec fn admission_makes<T, P>(
    link: ImportView<T>,
    sequence: u64,
    value: T,
    verdict: SendVerdict<P>,
    reply: LinkReply,
    next: Option<ImportView<T>>,
) -> bool {
    match verdict {
        SendVerdict::Sent => {
            &&& reply is Write
            &&& next == Some(
                ImportView {
                    previous: Some(sequence),
                    stage: ImportStage::Credit(sequence, 0),
                    ..link
                },
            )
        },
        SendVerdict::Rejected(error) => {
            &&& reply == LinkReply::Done(Some(IpcFault::Send(error.with_payload(()))))
            &&& next is None
        },
        SendVerdict::Waiting(ticket) => {
            &&& reply is Pending
            &&& next == Some(
                ImportView { stage: ImportStage::Sending(sequence, value, ticket), ..link },
            )
        },
    }
}

/// What the link makes of a whole payload: it is published as the codec decoded it, under the
/// grant of the link in its stream; what the codec refuses ends the link.
pub open spec fn payload_makes<T, P: Carries<T>>(
    link: ImportView<T>,
    v: FabricView<P>,
    sequence: u64,
    decoded: Result<T, WireError>,
    reply: LinkReply,
    next: Option<ImportView<T>>,
) -> bool {
    match decoded {
        Err(error) => reply == LinkReply::Done(Some(IpcFault::Wire(error))) && next is None,
        Ok(value) => admission_makes(
            link,
            sequence,
            value,
            v.send_first(link.stream, link.node, P::carried(value)).0,
            reply,
            next,
        ),
    }
}

/// What the link makes of the last bytes of a header. Only a header of its own event and wire
/// major is taken, with the sequence after the one before and a payload within its limit; it
/// then reads as many bytes as the header says, or goes on at once if that is none.
pub proof fn law_import_header<T, P: Carries<T>>(
    link: ImportView<T>,
    v: FabricView<P>,
    read: Seq<u8>,
    data: Seq<u8>,
    declaration: Declaration,
    decoded: Result<T, WireError>,
    revision: u32,
    sequence: u64,
    length: nat,
)
    requires
        link.stage == ImportStage::<T>::Header(read),
        data.len() > 0,
        read.len() + data.len() == 38,
        length <= u32::MAX,
        read + data == header_bytes(
            declaration.event,
            declaration.wire_major,
            revision,
            sequence,
            length,
        ),
    ensures
        ({
            let (reply, next, after) = link.step(
                v,
                ImportInput::DataRead(data),
                declaration,
                decoded,
            );
            let follows = link.previous is Some ==> link.previous->0 + 1 == sequence;
            if length > link.limit {
                reply == LinkReply::Done(Some(IpcFault::Oversized(length, link.limit)))
                    && next is None
            } else if !follows {
                reply == LinkReply::Done(Some(IpcFault::Protocol)) && next is None
            } else if length == 0 {
                &&& payload_makes(link, v, sequence, decoded, reply, next)
                &&& link.completes(ImportInput::DataRead(data), declaration) == Some(
                    (Seq::<u8>::empty(), SchemaRevision(revision)),
                )
            } else {
                &&& reply == LinkReply::Read(length)
                &&& next == Some(
                    ImportView {
                        stage: ImportStage::Payload(
                            sequence,
                            SchemaRevision(revision),
                            length,
                            Seq::empty(),
                        ),
                        ..link
                    },
                )
                &&& after == v
                &&& link.completes(ImportInput::DataRead(data), declaration) is None
            }
        }),
{
    law_link_header(
        declaration.event,
        declaration.wire_major,
        revision,
        sequence,
        length,
        link.limit,
    );
}

/// A header that is not written for the event and wire major of the link ends it, whatever the
/// rest of it says.
pub proof fn law_import_foreign_header<T, P: Carries<T>>(
    link: ImportView<T>,
    v: FabricView<P>,
    read: Seq<u8>,
    data: Seq<u8>,
    declaration: Declaration,
    decoded: Result<T, WireError>,
)
    requires
        link.stage == ImportStage::<T>::Header(read),
        data.len() > 0,
        read.len() + data.len() == 38,
        forall|revision: u32, sequence: u64, length: nat|
            length <= u32::MAX ==> read + data != #[trigger] header_bytes(
                declaration.event,
                declaration.wire_major,
                revision,
                sequence,
                length,
            ),
    ensures
        ({
            let step = link.step(v, ImportInput::DataRead(data), declaration, decoded);
            &&& step.0 == LinkReply::Done(Some(IpcFault::Protocol))
            &&& step.1 is None
            &&& link.completes(ImportInput::DataRead(data), declaration) is None
        }),
{
    let header = read + data;
    law_header_accepts(header, declaration.event, declaration.wire_major, link.limit);
    crate::bytes::lemma_spans();
    crate::bytes::lemma_le_unique(header.subrange(34, 38));
}

/// What the link makes of every other event. It reads a header and then a payload to their end
/// and no further; it writes a credit to its end and then reads the next header; it looks at
/// its control socket whenever it is polled; and it ends when it is polled after a revocation,
/// when anything comes on the control socket, when a socket fails or closes, and when the
/// control socket takes nothing.
pub proof fn law_import_other_events<T, P: Carries<T>>(
    link: ImportView<T>,
    v: FabricView<P>,
    input: ImportInput,
    declaration: Declaration,
    decoded: Result<T, WireError>,
)
    requires
        link.expects(input),
    ensures
        ({
            let (reply, next, after) = link.step(v, input, declaration, decoded);
            match input {
                ImportInput::Polled => if v.ledger.nodes[link.node as int].revoked {
                    reply == LinkReply::Done(Some(IpcFault::Revoked)) && next is None
                } else {
                    reply == LinkReply::PollControl(1) && next == Some(link) && after == v
                },
                ImportInput::ControlRead(count) => {
                    &&& next is None
                    &&& reply == LinkReply::Done(
                        Some(
                            if count == 0 {
                                IpcFault::Io(
                                    IoKind::UnexpectedEof,
                                    "IPC control socket closed"@,
                                )
                            } else {
                                IpcFault::Protocol
                            },
                        ),
                    )
                },
                ImportInput::Failed(fault) => reply == LinkReply::Done(Some(fault))
                    && next is None,
                ImportInput::SocketPending => reply is Pending && next == Some(link) && after == v,
                ImportInput::ControlPending => match link.stage {
                    ImportStage::Header(bytes) => {
                        &&& reply == LinkReply::Read((38 - bytes.len()) as nat)
                        &&& next == Some(link)
                        &&& after == v
                    },
                    ImportStage::Payload(_, _, length, bytes) => {
                        &&& reply == LinkReply::Read((length - bytes.len()) as nat)
                        &&& next == Some(link)
                        &&& after == v
                    },
                    ImportStage::Sending(sequence, value, ticket) => admission_makes(
                        link,
                        sequence,
                        value,
                        v.send_again(link.stream, link.node, P::carried(value), ticket).0,
                        reply,
                        next,
                    ),
                    ImportStage::Credit(_, _) => reply is Write && next == Some(link) && after
                        == v,
                },
                ImportInput::DataRead(data) => {
                    &&& data.len() == 0 ==> next is None && reply == LinkReply::Done(
                        Some(IpcFault::Io(IoKind::UnexpectedEof, "early eof"@)),
                    )
                    &&& data.len() > 0 ==> match link.stage {
                        ImportStage::Header(bytes) => bytes.len() + data.len() < 38 ==> {
                            &&& reply == LinkReply::Read((38 - bytes.len() - data.len()) as nat)
                            &&& next == Some(
                                ImportView { stage: ImportStage::Header(bytes + data), ..link },
                            )
                            &&& after == v
                            &&& link.completes(input, declaration) is None
                        },
                        ImportStage::Payload(sequence, revision, length, bytes) => if bytes.len()
                            + data.len() < length {
                            &&& reply == LinkReply::Read(
                                (length - bytes.len() - data.len()) as nat,
                            )
                            &&& next == Some(
                                ImportView {
                                    stage: ImportStage::Payload(
                                        sequence,
                                        revision,
                                        length,
                                        bytes + data,
                                    ),
                                    ..link
                                },
                            )
                            &&& after == v
                            &&& link.completes(input, declaration) is None
                        } else {
                            &&& payload_makes(link, v, sequence, decoded, reply, next)
                            &&& link.completes(input, declaration) == Some(
                                (bytes + data, revision),
                            )
                        },
                        _ => true,
                    }
                },
                ImportInput::CreditWritten(count) => match link.stage {
                    ImportStage::Credit(sequence, written) => {
                        &&& count == 0 ==> next is None && reply == LinkReply::Done(
                            Some(IpcFault::Io(IoKind::WriteZero, "write zero"@)),
                        )
                        &&& count > 0 && written + count < 9 ==> {
                            &&& reply is Write
                            &&& next == Some(
                                ImportView {
                                    stage: ImportStage::Credit(sequence, written + count),
                                    ..link
                                },
                            )
                            &&& after == v
                        }
                        &&& count > 0 && written + count == 9 ==> {
                            &&& reply is Yield
                            &&& next == Some(
                                ImportView { stage: ImportStage::Header(Seq::empty()), ..link },
                            )
                            &&& after == v
                        }
                    },
                    _ => true,
                },
            }
        }),
{
}

/// The bytes that a link writes next are those of the credit that are not written.
pub proof fn law_import_outgoing<T>(link: ImportView<T>, sequence: u64, written: nat)
    requires
        link.stage == ImportStage::<T>::Credit(sequence, written),
        written <= 9,
    ensures
        link.outgoing() == crate::ipc::credit_bytes(sequence).skip(written as int),
{
    crate::ipc::law_credit(sequence, sequence);
    assert(link.outgoing() =~= crate::ipc::credit_bytes(sequence).skip(written as int));
}

} // verus!
