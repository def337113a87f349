//! The importing end of a link: frames come in, local admissions and credits go out.
use crate::bytes::put_bytes;
use crate::endpoint::{DynamicSender, PendingSend, SendStep};
use crate::error::{SendError, TopicError};
use crate::event::EventSpec;
use crate::fabric::{declared, DynamicFabric};
use crate::fabric_laws::{enduring, fewer, lasting, settled, stays};
use crate::fabric_model::{publish_right, Declaration, FabricView, SendVerdict};
use crate::fabric_steps::{lemma_kept_steady, same_declared, same_members};
use crate::grant::Rights;
use crate::ipc::{
    bound_fits, control_closed, control_closed_error, credit_bytes, decode_header, early_end,
    early_end_error, encode_credit, filled, header_fault, header_length, header_revision,
    header_sequence, law_credit, link_allowance, link_charge, link_limits, payload_buffer,
    write_refused, write_refused_error, IoFailure, IpcError, IpcFault, LinkAction, LinkReply,
    CREDIT_BYTES, HEADER_BYTES,
};
use crate::ledger::{Grant, Lease, Ledger};
use crate::ledger_model::{LedgerView, Owner};
use crate::metadata::SchemaRevision;
use crate::payload::Carries;
use crate::reserve::Reservation;
use crate::wire::{WireCodec, WireError};
use vstd::prelude::*;

verus! {

broadcast use {Ledger::lemma_wf, DynamicFabric::lemma_wf, PendingSend::lemma_waiter};

/// What happens to an importing link.
pub enum ImportEvent<'a> {
    /// The link is polled.
    Polled,
    /// The control socket has nothing yet.
    ControlPending,
    /// The control socket gave that many bytes; none stands for its end.
    ControlRead(usize),
    /// The control socket failed.
    ControlFailed(IoFailure),
    /// The data socket gave these bytes; none stands for its end.
    DataRead(&'a [u8]),
    /// The control socket took that many bytes of a credit.
    CreditWritten(usize),
    /// The socket that was polled last makes no progress yet.
    SocketPending,
    /// The socket that was polled last failed.
    SocketFailed(IoFailure),
}

/// What an [`ImportEvent`] says.
pub enum ImportInput {
    /// See [`ImportEvent::Polled`].
    Polled,
    /// See [`ImportEvent::ControlPending`].
    ControlPending,
    /// See [`ImportEvent::ControlRead`].
    ControlRead(nat),
    /// See [`ImportEvent::DataRead`].
    DataRead(Seq<u8>),
    /// See [`ImportEvent::CreditWritten`].
    CreditWritten(nat),
    /// See [`ImportEvent::SocketPending`].
    SocketPending,
    /// See [`ImportEvent::ControlFailed`] and [`ImportEvent::SocketFailed`].
    Failed(IpcFault),
}

impl<'a> View for ImportEvent<'a> {
    type V = ImportInput;

    open spec fn view(&self) -> ImportInput {
        match self {
            ImportEvent::Polled => ImportInput::Polled,
            ImportEvent::ControlPending => ImportInput::ControlPending,
            ImportEvent::ControlRead(count) => ImportInput::ControlRead(*count as nat),
            ImportEvent::ControlFailed(failure) => ImportInput::Failed(
                IpcFault::Io(failure.kind, failure.text@),
            ),
            ImportEvent::DataRead(data) => ImportInput::DataRead(data@),
            ImportEvent::CreditWritten(count) => ImportInput::CreditWritten(*count as nat),
            ImportEvent::SocketPending => ImportInput::SocketPending,
            ImportEvent::SocketFailed(failure) => ImportInput::Failed(
                IpcFault::Io(failure.kind, failure.text@),
            ),
        }
    }
}

/// How far an importing link is with a frame.
pub enum ImportStage<T> {
    /// These bytes of the header have come.
    Header(Seq<u8>),
    /// The header has come, and these bytes of the payload.
    Payload(u64, SchemaRevision, nat, Seq<u8>),
    /// The payload waits for local admission, with the ticket of its waiter.
    Sending(u64, T, nat),
    /// The payload is admitted, and that many bytes of the credit are written.
    Credit(u64, nat),
}

/// An importing link that has not ended.
pub struct ImportView<T> {
    /// Slot of the grant.
    pub node: nat,
    /// Slot of the stream.
    pub stream: nat,
    /// The charge of the link.
    pub lease: nat,
    /// Payload bound.
    pub limit: nat,
    /// Sequence of the frame before.
    pub previous: Option<u64>,
    /// How far the link is.
    pub stage: ImportStage<T>,
}

/// What a link does next, what is left of it, and the fabric afterwards.
pub type ImportOutcome<T, P> = (LinkReply, Option<ImportView<T>>, FabricView<P>);

impl<T> ImportView<T> {
    pub open spec fn at(self, stage: ImportStage<T>) -> ImportView<T> {
        ImportView { stage, ..self }
    }

    /// The fabric after the link has given back all that it held.
    pub open spec fn ended<P>(self, v: FabricView<P>) -> FabricView<P> {
        let quiet = match self.stage {
            ImportStage::Sending(_, _, ticket) => v.end_wait(self.stream, ticket),
            _ => v,
        };
        quiet.drop_handle(self.node).release(self.lease).drop_handle(self.node)
    }

    /// What the link holds is in the fabric: its charge, the charge of its waiter if it waits,
    /// and two handles of its grant.
    pub open spec fn held<P>(self, v: FabricView<P>) -> bool {
        &&& v.wf()
        &&& self.stream < v.streams.len()
        &&& self.node < v.ledger.nodes.len()
        &&& v.ledger.nodes[self.node as int].handles >= 2
        &&& bound_fits(self.limit)
        &&& v.ledger.outstanding(self.lease)
        &&& v.ledger.record(self.lease) == link_charge(self.node, self.limit)
        &&& self.stage matches ImportStage::Sending(_, _, ticket) ==> v.ledger.outstanding(ticket)
            && v.ledger.record(ticket).owner == Owner::Waiter(self.stream)
    }

    /// Nothing that the link held is outstanding.
    pub open spec fn ends(self, ledger: LedgerView) -> bool {
        &&& !ledger.outstanding(self.lease)
        &&& self.stage matches ImportStage::Sending(_, _, ticket) ==> !ledger.outstanding(ticket)
    }

    /// Nothing that the link held is outstanding, and nothing new is.
    pub open spec fn gone(self, before: LedgerView, after: LedgerView) -> bool {
        fewer(before, after) && self.ends(after)
    }

    /// The charge is the link's.
    pub open spec fn owns(self, ticket: nat) -> bool {
        ||| ticket == self.lease
        ||| self.stage matches ImportStage::Sending(_, _, waiter) && waiter == ticket
    }

    /// What the link holds next it holds already, or it is new.
    pub open spec fn renews(self, next: ImportView<T>, before: LedgerView) -> bool {
        &&& next.node == self.node
        &&& forall|t: nat| #[trigger] next.owns(t) ==> self.owns(t) || t >= before.table.len()
    }

    /// What the link leaves as it was: every lasting charge but its own, the handles of
    /// all grants but the two that it gives back at its end, and every
    /// subscription.
    pub open spec fn beside<P>(
        self,
        before: FabricView<P>,
        after: FabricView<P>,
        ended: bool,
    ) -> bool {
        &&& same_members(before, after)
        &&& forall|t: nat|
            !self.owns(t) && #[trigger] lasting(before.ledger, t) ==> stays(
                before.ledger,
                after.ledger,
                t,
            ) && lasting(after.ledger, t)
        &&& settled(
            before.ledger,
            after.ledger,
            self.node,
            if ended {
                -2
            } else {
                0
            },
        )
    }

    /// The link ends with a failure.
    pub open spec fn fail<P>(self, v: FabricView<P>, fault: IpcFault) -> ImportOutcome<T, P> {
        (LinkReply::Done(Some(fault)), None, self.ended(v))
    }

    /// The sequence may follow the one before.
    pub open spec fn follows(self, sequence: u64) -> bool {
        self.previous matches Some(last) ==> last + 1 == sequence
    }

    /// The bytes of the credit that are still to write.
    pub open spec fn outgoing(self) -> Seq<u8> {
        match self.stage {
            ImportStage::Credit(sequence, written) => credit_bytes(sequence).subrange(
                written as int,
                credit_bytes(sequence).len() as int,
            ),
            _ => Seq::empty(),
        }
    }

    /// An attempt of local admission came to a verdict.
    pub open spec fn attempted<P>(
        self,
        v: FabricView<P>,
        sequence: u64,
        value: T,
        verdict: SendVerdict<P>,
    ) -> ImportOutcome<T, P> {
        match verdict {
            SendVerdict::Sent => (
                LinkReply::Write,
                Some(
                    ImportView {
                        previous: Some(sequence),
                        stage: ImportStage::Credit(sequence, 0),
                        ..self
                    },
                ),
                v,
            ),
            SendVerdict::Rejected(error) => self.at(ImportStage::Header(Seq::empty())).fail(
                v,
                IpcFault::Send(error.with_payload(())),
            ),
            SendVerdict::Waiting(ticket) => (
                LinkReply::Pending,
                Some(self.at(ImportStage::Sending(sequence, value, ticket))),
                v,
            ),
        }
    }

    /// The payload of a frame has been decoded.
    pub open spec fn decoded<P: Carries<T>>(
        self,
        v: FabricView<P>,
        sequence: u64,
        decoded: Result<T, WireError>,
    ) -> ImportOutcome<T, P> {
        match decoded {
            Err(error) => self.at(ImportStage::Header(Seq::empty())).fail(
                v,
                IpcFault::Wire(error),
            ),
            Ok(value) => {
                let (verdict, after) = v.send_first(
                    self.stream,
                    self.node,
                    P::carried(value),
                );
                self.attempted(after, sequence, value, verdict)
            },
        }
    }

    /// A whole header has come.
    pub open spec fn headed<P: Carries<T>>(
        self,
        v: FabricView<P>,
        header: Seq<u8>,
        declaration: Declaration,
        decoded: Result<T, WireError>,
    ) -> ImportOutcome<T, P> {
        let sequence = header_sequence(header);
        let length = header_length(header);
        match header_fault(header, declaration.event, declaration.wire_major, self.limit) {
            Some(fault) => self.fail(v, fault),
            None => if !self.follows(sequence) {
                self.fail(v, IpcFault::Protocol)
            } else if length == 0 {
                self.decoded(v, sequence, decoded)
            } else {
                (
                    LinkReply::Read(length),
                    Some(
                        self.at(
                            ImportStage::Payload(
                                sequence,
                                header_revision(header),
                                length,
                                Seq::empty(),
                            ),
                        ),
                    ),
                    v,
                )
            },
        }
    }

    /// The bytes and the revision that a header hands to the decoder, if it does.
    pub open spec fn hands(self, header: Seq<u8>, declaration: Declaration) -> Option<
        (Seq<u8>, SchemaRevision),
    > {
        if header_fault(header, declaration.event, declaration.wire_major, self.limit) is None
            && self.follows(header_sequence(header)) && header_length(header) == 0 {
            Some((Seq::empty(), header_revision(header)))
        } else {
            None
        }
    }

    /// The bytes and the revision that an event completes for the decoder, if it does.
    pub open spec fn completes(self, input: ImportInput, declaration: Declaration) -> Option<
        (Seq<u8>, SchemaRevision),
    > {
        match input {
            ImportInput::DataRead(data) => match self.stage {
                ImportStage::Header(bytes) => if data.len() > 0 && bytes.len() + data.len()
                    == HEADER_BYTES {
                    self.hands(bytes + data, declaration)
                } else {
                    None
                },
                ImportStage::Payload(_, revision, length, bytes) => if data.len() > 0 && bytes.len()
                    + data.len() == length {
                    Some((bytes + data, revision))
                } else {
                    None
                },
                _ => None,
            },
            _ => None,
        }
    }

    /// The event can come at this stage.
    pub open spec fn expects(self, input: ImportInput) -> bool {
        match input {
            ImportInput::DataRead(data) => match self.stage {
                ImportStage::Header(bytes) => bytes.len() + data.len() <= HEADER_BYTES,
                ImportStage::Payload(_, _, length, bytes) => bytes.len() + data.len() <= length,
                _ => false,
            },
            ImportInput::CreditWritten(count) => match self.stage {
                ImportStage::Credit(_, written) => written + count <= CREDIT_BYTES,
                _ => false,
            },
            _ => true,
        }
    }

    /// What the link does about an event. `decoded` is what the codec made of the bytes
    /// that the event completes, if it completes any.
    pub open spec fn step<P: Carries<T>>(
        self,
        v: FabricView<P>,
        input: ImportInput,
        declaration: Declaration,
        decoded: Result<T, WireError>,
    ) -> ImportOutcome<T, P> {
        match input {
            ImportInput::Polled => if v.ledger.nodes[self.node as int].revoked {
                self.fail(v, IpcFault::Revoked)
            } else {
                (LinkReply::PollControl(1), Some(self), v)
            },
            ImportInput::ControlRead(count) => self.fail(
                v,
                if count == 0 {
                    control_closed()
                } else {
                    IpcFault::Protocol
                },
            ),
            ImportInput::Failed(fault) => self.fail(v, fault),
            ImportInput::SocketPending => (LinkReply::Pending, Some(self), v),
            ImportInput::ControlPending => match self.stage {
                ImportStage::Header(bytes) => (
                    LinkReply::Read((HEADER_BYTES - bytes.len()) as nat),
                    Some(self),
                    v,
                ),
                ImportStage::Payload(_, _, length, bytes) => (
                    LinkReply::Read((length - bytes.len()) as nat),
                    Some(self),
                    v,
                ),
                ImportStage::Sending(sequence, value, ticket) => {
                    let (verdict, after) = v.send_again(
                        self.stream,
                        self.node,
                        P::carried(value),
                        ticket,
                    );
                    self.attempted(after, sequence, value, verdict)
                },
                ImportStage::Credit(_, _) => (LinkReply::Write, Some(self), v),
            },
            ImportInput::DataRead(data) => if data.len() == 0 {
                self.fail(v, early_end())
            } else {
                match self.stage {
                    ImportStage::Header(bytes) => if bytes.len() + data.len() < HEADER_BYTES {
                        (
                            LinkReply::Read((HEADER_BYTES - bytes.len() - data.len()) as nat),
                            Some(self.at(ImportStage::Header(bytes + data))),
                            v,
                        )
                    } else {
                        self.at(ImportStage::Header(Seq::empty())).headed(
                            v,
                            bytes + data,
                            declaration,
                            decoded,
                        )
                    },
                    ImportStage::Payload(sequence, revision, length, bytes) => if bytes.len()
                        + data.len() < length {
                        (
                            LinkReply::Read((length - bytes.len() - data.len()) as nat),
                            Some(
                                self.at(
                                    ImportStage::Payload(
                                        sequence,
                                        revision,
                                        length,
                                        bytes + data,
                                    ),
                                ),
                            ),
                            v,
                        )
                    } else {
                        self.decoded(v, sequence, decoded)
                    },
                    _ => (LinkReply::Pending, Some(self), v),
                }
            },
            ImportInput::CreditWritten(count) => match self.stage {
                ImportStage::Credit(sequence, written) => if count == 0 {
                    self.fail(v, write_refused())
                } else if written + count < CREDIT_BYTES {
                    (
                        LinkReply::Write,
                        Some(self.at(ImportStage::Credit(sequence, written + count))),
                        v,
                    )
                } else {
                    (
                        LinkReply::Yield,
                        Some(self.at(ImportStage::Header(Seq::empty()))),
                        v,
                    )
                },
                _ => (LinkReply::Pending, Some(self), v),
            },
        }
    }
}

/// Claiming what an importing link needs but its payload buffer: the stream and the
/// charge, or the failure, and the fabric afterwards.
#[verifier::opaque]
pub open spec fn claim_import<P>(
    v: FabricView<P>,
    node: nat,
    declaration: Declaration,
    max_payload: nat,
) -> (Result<(nat, nat), IpcFault>, FabricView<P>) {
    let ticket = v.ledger.table.len();
    match v.ledger.enter_error(node, declaration.event, publish_right()) {
        Some(error) => (Err(IpcFault::Topic(error)), v.drop_handle(node)),
        None => if !bound_fits(max_payload) {
            (
                Err(IpcFault::Topic(TopicError::InvalidConfig)),
                v.passed(node).drop_handle(node),
            )
        } else {
            match v.ledger.charge_error(node, None, link_allowance(max_payload)) {
                Some(error) => (
                    Err(IpcFault::Topic(error)),
                    v.refuse(node, link_allowance(max_payload)).passed(node).drop_handle(node),
                ),
                None => {
                    let charged = v.charge_link(node, link_allowance(max_payload));
                    let (found, bound) = charged.sender(node, declaration);
                    match found {
                        Err(error) => (
                            Err(IpcFault::Topic(error)),
                            bound.release(ticket).passed(node).drop_handle(node),
                        ),
                        Ok(stream) => (Ok((stream, ticket)), bound),
                    }
                },
            }
        },
    }
}

/// Binding an importing link: the stream and the charge, or the failure, and the fabric
/// afterwards. `allocated` says whether the machine has room for the payload buffer.
#[verifier::opaque]
pub open spec fn bind_import<P>(
    v: FabricView<P>,
    node: nat,
    declaration: Declaration,
    max_payload: nat,
    allocated: bool,
) -> (Result<(nat, nat), IpcFault>, FabricView<P>) {
    let (found, claimed) = claim_import(v, node, declaration, max_payload);
    match found {
        Err(fault) => (Err(fault), claimed),
        Ok((stream, ticket)) => if allocated {
            (Ok((stream, ticket)), claimed.passed(node))
        } else {
            (
                Err(IpcFault::Topic(TopicError::Capacity)),
                claimed.drop_handle(node).release(ticket).passed(node).drop_handle(node),
            )
        },
    }
}

/// A link that cannot be claimed is not bound, whatever room there is.
pub proof fn lemma_unclaimed_import<P>(
    v: FabricView<P>,
    node: nat,
    declaration: Declaration,
    max_payload: nat,
    allocated: bool,
)
    ensures
        claim_import(v, node, declaration, max_payload).0 is Err ==> bind_import(
            v,
            node,
            declaration,
            max_payload,
            allocated,
        ) == claim_import(v, node, declaration, max_payload),
{
    reveal(bind_import);
}

/// The importing link that a binding gives.
pub open spec fn imported<T>(node: nat, stream: nat, lease: nat, max_payload: nat) -> ImportView<T> {
    ImportView {
        node,
        stream,
        lease,
        limit: max_payload,
        previous: None,
        stage: ImportStage::Header(Seq::empty()),
    }
}

/// A link bound through the grant in slot `node`, or the failure to bind one, is what the
/// model says.
pub open spec fn import_bound<E: WireCodec, P: Carries<E::Payload>>(
    result: Result<UnixImport<E>, IpcError>,
    fabric: &DynamicFabric<P>,
    node: nat,
    max_payload: nat,
    outcome: (Result<(nat, nat), IpcFault>, FabricView<P>),
) -> bool {
    &&& fabric@ == outcome.1
    &&& match outcome.0 {
        Ok((stream, lease)) => {
            &&& result matches Ok(link)
            &&& link.valid(fabric)
            &&& link@ == Some(imported::<E::Payload>(node, stream, lease, max_payload))
        },
        Err(fault) => result is Err && result->Err_0@ == fault,
    }
}

enum Stage<P> {
    Header,
    Payload { sequence: u64, revision: SchemaRevision, length: usize },
    Sending { sequence: u64, pending: PendingSend<P> },
    Credit { sequence: u64, credit: [u8; 9], written: usize },
}

struct ImportState<E: WireCodec> {
    grant: Grant,
    lease: Lease,
    sender: DynamicSender<E>,
    header: Vec<u8>,
    buffer: Vec<u8>,
    filled: usize,
    previous: Option<u64>,
    stage: Stage<E::Payload>,
}

impl<E: WireCodec> ImportState<E> {
    spec fn view(self) -> ImportView<E::Payload> {
        ImportView {
            node: self.grant.node(),
            stream: self.sender.stream(),
            lease: self.lease.ticket(),
            limit: self.buffer@.len(),
            previous: self.previous,
            stage: match self.stage {
                Stage::Header => ImportStage::Header(self.header@),
                Stage::Payload { sequence, revision, length } => ImportStage::Payload(
                    sequence,
                    revision,
                    length as nat,
                    self.buffer@.subrange(0, self.filled as int),
                ),
                Stage::Sending { sequence, pending } => ImportStage::Sending(
                    sequence,
                    pending.payload(),
                    pending.ticket(),
                ),
                Stage::Credit { sequence, credit, written } => ImportStage::Credit(
                    sequence,
                    written as nat,
                ),
            },
        }
    }

    spec fn held<P: Carries<E::Payload>>(self, fabric: &DynamicFabric<P>) -> bool {
        &&& self.lease.recorded(fabric@.ledger.table, Owner::Link)
        &&& self.lease.record(Owner::Link) == link_charge(self.grant.node(), self.buffer@.len())
        &&& self.sender.valid(fabric)
        &&& self.sender.node() == self.grant.node()
        &&& self.grant.node() != fabric.root()
        &&& fabric@.ledger.nodes[self.grant.node() as int].handles >= 2
        &&& self.header@.len() < HEADER_BYTES
        &&& bound_fits(self.buffer@.len())
    }

    spec fn valid<P: Carries<E::Payload>>(self, fabric: &DynamicFabric<P>) -> bool {
        &&& self.held(fabric)
        &&& match self.stage {
            Stage::Header => true,
            Stage::Payload { sequence, revision, length } => self.filled < length
                <= self.buffer@.len() && self.header@.len() == 0,
            Stage::Sending { sequence, pending } => pending.valid(fabric) && pending.stream()
                == self.sender.stream() && self.header@.len() == 0,
            Stage::Credit { sequence, credit, written } => written < CREDIT_BYTES && credit@
                == credit_bytes(sequence) && self.header@.len() == 0,
        }
    }

    /// Gives back all that the link held.
    fn end<P: Carries<E::Payload>>(self, fabric: &mut DynamicFabric<P>)
        requires
            old(fabric).wf(),
            self.valid(old(fabric)),
        ensures
            final(fabric).wf(),
            final(fabric).root() == old(fabric).root(),
            final(fabric)@ == self.view().ended(old(fabric)@),
            self.view().gone(old(fabric)@.ledger, final(fabric)@.ledger),
            self.view().beside(old(fabric)@, final(fabric)@, true),
    {
        let ImportState {
            grant,
            lease,
            sender,
            header: _,
            buffer: _,
            filled: _,
            previous: _,
            stage,
        } = self;
        assert(lasting(fabric@.ledger, lease.ticket()));
        match stage {
            Stage::Sending { sequence: _, pending } => {
                let _ = pending.cancel(fabric);
            },
            _ => {},
        }
        release_all(grant, lease, sender, fabric);
    }

    /// Ends the link with a failure.
    fn fail<P: Carries<E::Payload>>(
        self,
        fabric: &mut DynamicFabric<P>,
        error: IpcError,
    ) -> (step: (
        LinkAction,
        Option<Self>,
    ))
        requires
            old(fabric).wf(),
            self.valid(old(fabric)),
        ensures
            final(fabric).wf(),
            final(fabric).root() == old(fabric).root(),
            step.0@ == LinkReply::Done(Some(error@)),
            step.1 is None,
            final(fabric)@ == self.view().ended(old(fabric)@),
            self.view().gone(old(fabric)@.ledger, final(fabric)@.ledger),
            self.view().beside(old(fabric)@, final(fabric)@, true),
    {
        self.end(fabric);
        (LinkAction::Done(Err(error)), None)
    }
}

impl<E: WireCodec> ImportState<E> {
    /// Goes on after an attempt of local admission.
    fn attempted<P: Carries<E::Payload>>(
        self,
        fabric: &mut DynamicFabric<P>,
        sequence: u64,
        step: SendStep<E::Payload>,
        value: Ghost<E::Payload>,
        verdict: Ghost<SendVerdict<P>>,
    ) -> (result: (LinkAction, Option<Self>))
        requires
            old(fabric).wf(),
            self.valid(old(fabric)),
            self.stage is Header,
            self.header@.len() == 0,
            step.is(verdict@, value@, self.sender.stream(), old(fabric)),
        ensures
            final(fabric).wf(),
            final(fabric).root() == old(fabric).root(),
            result.1 matches Some(next) ==> next.valid(final(fabric)),
            result.1 is None ==> self.view().ends(final(fabric)@.ledger),
            self.view().beside(old(fabric)@, final(fabric)@, result.1 is None),
            result.1 matches Some(next) ==> next.grant.node() == self.grant.node() && forall|t: nat| #[trigger]
                next.view().owns(t) ==> self.view().owns(t) || (step matches SendStep::Wait(pending)
                    && t == pending.ticket()),
            became(
                result,
                final(fabric)@,
                self.view().attempted(old(fabric)@, sequence, value@, verdict@),
            ),
            result.1 is None ==> fewer(old(fabric)@.ledger, final(fabric)@.ledger),
    {
        match step {
            SendStep::Sent => {
                let credit = encode_credit(sequence);
                let mut next = self;
                next.previous = Some(sequence);
                next.stage = Stage::Credit { sequence, credit, written: 0 };
                (LinkAction::Write, Some(next))
            },
            SendStep::Rejected(error) => {
                let error = match error {
                    SendError::Closed(_) => SendError::Closed(()),
                    SendError::Revoked(_) => SendError::Revoked(()),
                    SendError::WaitersFull(_) => SendError::WaitersFull(()),
                    SendError::SequenceExhausted(_) => SendError::SequenceExhausted(()),
                };
                self.fail(fabric, IpcError::Send(error))
            },
            SendStep::Wait(pending) => {
                let mut next = self;
                next.stage = Stage::Sending { sequence, pending };
                (LinkAction::Pending, Some(next))
            },
        }
    }

    /// Goes on with a decoded payload.
    fn decoded<P: Carries<E::Payload>>(
        self,
        fabric: &mut DynamicFabric<P>,
        sequence: u64,
        decoded: Result<E::Payload, WireError>,
    ) -> (result: (LinkAction, Option<Self>))
        requires
            old(fabric).wf(),
            self.valid(old(fabric)),
            self.stage is Header,
            self.header@.len() == 0,
        ensures
            final(fabric).wf(),
            final(fabric).root() == old(fabric).root(),
            result.1 matches Some(next) ==> next.valid(final(fabric)),
            result.1 is None ==> self.view().ends(final(fabric)@.ledger),
            self.view().beside(old(fabric)@, final(fabric)@, result.1 is None),
            result.1 matches Some(next) ==> self.view().renews(next.view(), old(fabric)@.ledger),
            became(result, final(fabric)@, self.view().decoded(old(fabric)@, sequence, decoded)),
    {
        assert(self.header@ =~= Seq::empty());
        match decoded {
            Err(error) => self.fail(fabric, IpcError::Wire(error)),
            Ok(value) => {
                let ghost before = fabric@;
                let ghost payload = value;
                let ghost verdict = before.send_first(
                    self.sender.stream(),
                    self.grant.node(),
                    P::carried(value),
                ).0;
                assert(lasting(fabric@.ledger, self.lease.ticket()));
                let step = self.sender.send(fabric, value);
                self.attempted(fabric, sequence, step, Ghost(payload), Ghost(verdict))
            },
        }
    }

    /// Goes on with a header that has come whole.
    fn headed<P: Carries<E::Payload>>(
        self,
        fabric: &mut DynamicFabric<P>,
        header: Vec<u8>,
    ) -> (result: (
        LinkAction,
        Option<Self>,
    ))
        requires
            old(fabric).wf(),
            self.valid(old(fabric)),
            self.stage is Header,
            self.header@.len() == 0,
            header@.len() == HEADER_BYTES,
        ensures
            final(fabric).wf(),
            final(fabric).root() == old(fabric).root(),
            result.1 matches Some(next) ==> next.valid(final(fabric)),
            result.1 is None ==> self.view().ends(final(fabric)@.ledger),
            self.view().beside(old(fabric)@, final(fabric)@, result.1 is None),
            result.1 matches Some(next) ==> self.view().renews(next.view(), old(fabric)@.ledger),
            exists|decoded: Result<E::Payload, WireError>| #[trigger]
                explains::<E>(self.view().hands(header@, declared::<E, P>()), decoded) && became(
                    result,
                    final(fabric)@,
                    self.view().headed(old(fabric)@, header@, declared::<E, P>(), decoded),
                ),
    {
        let ghost handed = self.view().hands(header@, declared::<E, P>());
        let ghost none = Err::<E::Payload, WireError>(WireError::Truncated);
        assert(handed is None ==> explains::<E>(handed, none));
        assert(self.header@ =~= Seq::empty());
        match decode_header::<E>(header.as_slice(), self.buffer.len()) {
            Err(error) => self.fail(fabric, error),
            Ok((sequence, revision, length)) => {
                let follows = match self.previous {
                    Some(last) => last < u64::MAX && last + 1 == sequence,
                    None => true,
                };
                if !follows {
                    self.fail(fabric, IpcError::Protocol)
                } else if length == 0 {
                    let empty: [u8; 0] = [];
                    let decoded = E::decode(&empty, revision);
                    assert(empty@ =~= Seq::empty());
                    let ghost found = decoded;
                    let result = self.decoded(fabric, sequence, decoded);
                    assert(explains::<E>(handed, found));
                    result
                } else {
                    let mut next = self;
                    next.filled = 0;
                    next.stage = Stage::Payload { sequence, revision, length };
                    assert(next.buffer@.subrange(0, 0) =~= Seq::empty());
                    (LinkAction::Read(length), Some(next))
                }
            },
        }
    }
}

/// What the codec made of the bytes that it was handed, if it was handed any.
pub open spec fn explains<E: WireCodec>(
    handed: Option<(Seq<u8>, SchemaRevision)>,
    decoded: Result<E::Payload, WireError>,
) -> bool {
    handed matches Some((bytes, revision)) ==> E::decodes(bytes, revision, decoded)
}

/// The link and the fabric are what the model says.
spec fn became<E: WireCodec, P: Carries<E::Payload>>(
    result: (LinkAction, Option<ImportState<E>>),
    after: FabricView<P>,
    outcome: ImportOutcome<E::Payload, P>,
) -> bool {
    &&& result.0@ == outcome.0
    &&& after == outcome.2
    &&& match outcome.1 {
        Some(view) => result.1 is Some && result.1->0.view() == view,
        None => result.1 is None,
    }
}

impl<E: WireCodec> ImportState<E> {
    /// Goes on when the control socket has nothing to say.
    fn advance<P: Carries<E::Payload>>(self, fabric: &mut DynamicFabric<P>) -> (result: (
        LinkAction,
        Option<Self>,
    ))
        requires
            old(fabric).wf(),
            self.valid(old(fabric)),
        ensures
            final(fabric).wf(),
            final(fabric).root() == old(fabric).root(),
            result.1 matches Some(next) ==> next.valid(final(fabric)),
            result.1 is None ==> self.view().ends(final(fabric)@.ledger),
            self.view().beside(old(fabric)@, final(fabric)@, result.1 is None),
            result.1 matches Some(next) ==> self.view().renews(next.view(), old(fabric)@.ledger),
            forall|decoded: Result<E::Payload, WireError>|
                became(
                    result,
                    final(fabric)@,
                    #[trigger] self.view().step(
                        old(fabric)@,
                        ImportInput::ControlPending,
                        declared::<E, P>(),
                        decoded,
                    ),
                ),
    {
        let ghost before = fabric@;
        let ghost view = self.view();
        let mut next = self;
        let mut stage = Stage::Header;
        std::mem::swap(&mut stage, &mut next.stage);
        match stage {
            Stage::Header => {
                let wanted = HEADER_BYTES - next.header.len();
                (LinkAction::Read(wanted), Some(next))
            },
            Stage::Payload { sequence, revision, length } => {
                next.stage = Stage::Payload { sequence, revision, length };
                (LinkAction::Read(length - next.filled), Some(next))
            },
            Stage::Sending { sequence, pending } => {
                let ghost value = pending.payload();
                let ghost verdict = before.send_again(
                    view.stream,
                    view.node,
                    P::carried(value),
                    pending.ticket(),
                ).0;
                assert(lasting(fabric@.ledger, next.lease.ticket()));
                assert(next.header@ =~= Seq::empty());
                let step = next.sender.resend(fabric, pending);
                next.attempted(fabric, sequence, step, Ghost(value), Ghost(verdict))
            },
            Stage::Credit { sequence, credit, written } => {
                next.stage = Stage::Credit { sequence, credit, written };
                (LinkAction::Write, Some(next))
            },
        }
    }

    /// Goes on with bytes of a header.
    fn read_header<P: Carries<E::Payload>>(
        self,
        fabric: &mut DynamicFabric<P>,
        data: &[u8],
    ) -> (result: (
        LinkAction,
        Option<Self>,
    ))
        requires
            old(fabric).wf(),
            self.valid(old(fabric)),
            self.view().expects(ImportInput::DataRead(data@)),
            self.stage is Header,
            data@.len() > 0,
        ensures
            final(fabric).wf(),
            final(fabric).root() == old(fabric).root(),
            result.1 matches Some(next) ==> next.valid(final(fabric)),
            result.1 is None ==> self.view().ends(final(fabric)@.ledger),
            self.view().beside(old(fabric)@, final(fabric)@, result.1 is None),
            result.1 matches Some(next) ==> self.view().renews(next.view(), old(fabric)@.ledger),
            exists|decoded: Result<E::Payload, WireError>| #[trigger]
                explains::<E>(
                    self.view().completes(ImportInput::DataRead(data@), declared::<E, P>()),
                    decoded,
                ) && became(
                    result,
                    final(fabric)@,
                    self.view().step(
                        old(fabric)@,
                        ImportInput::DataRead(data@),
                        declared::<E, P>(),
                        decoded,
                    ),
                ),
    {
        let ghost view = self.view();
        let ghost handed = view.completes(ImportInput::DataRead(data@), declared::<E, P>());
        let ghost none = Err::<E::Payload, WireError>(WireError::Truncated);
        assert(handed is None ==> explains::<E>(handed, none));
        let mut next = self;
        let mut header: Vec<u8> = Vec::new();
        std::mem::swap(&mut header, &mut next.header);
        let ghost part = header@;
        header.extend_from_slice(data);
        assert(header@ =~= part + data@);
        if header.len() < HEADER_BYTES {
            let wanted = HEADER_BYTES - header.len();
            next.header = header;
            (LinkAction::Read(wanted), Some(next))
        } else {
            assert(next.header@ =~= Seq::empty());
            assert(next.view() == view.at(ImportStage::Header(Seq::empty())));
            assert(next.view().hands(header@, declared::<E, P>()) == handed);
            next.headed(fabric, header)
        }
    }

    /// Goes on with bytes of a payload.
    #[verifier::rlimit(40)]
    #[verifier::spinoff_prover]
    fn read_payload<P: Carries<E::Payload>>(
        self,
        fabric: &mut DynamicFabric<P>,
        data: &[u8],
    ) -> (result: (
        LinkAction,
        Option<Self>,
    ))
        requires
            old(fabric).wf(),
            self.valid(old(fabric)),
            self.view().expects(ImportInput::DataRead(data@)),
            self.stage is Payload,
            data@.len() > 0,
        ensures
            final(fabric).wf(),
            final(fabric).root() == old(fabric).root(),
            result.1 matches Some(next) ==> next.valid(final(fabric)),
            result.1 is None ==> self.view().ends(final(fabric)@.ledger),
            self.view().beside(old(fabric)@, final(fabric)@, result.1 is None),
            result.1 matches Some(next) ==> self.view().renews(next.view(), old(fabric)@.ledger),
            exists|decoded: Result<E::Payload, WireError>| #[trigger]
                explains::<E>(
                    self.view().completes(ImportInput::DataRead(data@), declared::<E, P>()),
                    decoded,
                ) && became(
                    result,
                    final(fabric)@,
                    self.view().step(
                        old(fabric)@,
                        ImportInput::DataRead(data@),
                        declared::<E, P>(),
                        decoded,
                    ),
                ),
    {
        let ghost view = self.view();
        let ghost handed = view.completes(ImportInput::DataRead(data@), declared::<E, P>());
        let ghost none = Err::<E::Payload, WireError>(WireError::Truncated);
        assert(handed is None ==> explains::<E>(handed, none));
        let mut next = self;
        match next.stage {
            Stage::Payload { sequence, revision, length } => {
                let ghost bytes = next.buffer@.subrange(0, next.filled as int) + data@;
                put_bytes(next.buffer.as_mut_slice(), next.filled, data);
                next.filled = next.filled + data.len();
                assert(next.buffer@.subrange(0, next.filled as int) =~= bytes);
                next.stage = Stage::Payload { sequence, revision, length };
                if next.filled < length {
                    (LinkAction::Read(length - next.filled), Some(next))
                } else {
                    let decoded = E::decode(
                        vstd::slice::slice_subrange(next.buffer.as_slice(), 0, length),
                        revision,
                    );
                    let ghost found = decoded;
                    assert(explains::<E>(handed, found));
                    next.stage = Stage::Header;
                    assert(next.header@ =~= Seq::empty());
                    assert(next.view() == view.at(ImportStage::Header(Seq::empty())));
                    next.decoded(fabric, sequence, decoded)
                }
            },
            other => {
                next.stage = other;
                (LinkAction::Pending, Some(next))
            },
        }
    }

    /// Goes on with bytes of the data socket.
    fn read<P: Carries<E::Payload>>(self, fabric: &mut DynamicFabric<P>, data: &[u8]) -> (result: (
        LinkAction,
        Option<Self>,
    ))
        requires
            old(fabric).wf(),
            self.valid(old(fabric)),
            self.view().expects(ImportInput::DataRead(data@)),
        ensures
            final(fabric).wf(),
            final(fabric).root() == old(fabric).root(),
            result.1 matches Some(next) ==> next.valid(final(fabric)),
            result.1 is None ==> self.view().ends(final(fabric)@.ledger),
            self.view().beside(old(fabric)@, final(fabric)@, result.1 is None),
            result.1 matches Some(next) ==> self.view().renews(next.view(), old(fabric)@.ledger),
            exists|decoded: Result<E::Payload, WireError>| #[trigger]
                explains::<E>(
                    self.view().completes(ImportInput::DataRead(data@), declared::<E, P>()),
                    decoded,
                ) && became(
                    result,
                    final(fabric)@,
                    self.view().step(
                        old(fabric)@,
                        ImportInput::DataRead(data@),
                        declared::<E, P>(),
                        decoded,
                    ),
                ),
    {
        let ghost view = self.view();
        let ghost handed = view.completes(ImportInput::DataRead(data@), declared::<E, P>());
        let ghost none = Err::<E::Payload, WireError>(WireError::Truncated);
        assert(handed is None ==> explains::<E>(handed, none));
        if data.len() == 0 {
            return self.fail(fabric, early_end_error());
        }
        match self.stage {
            Stage::Header => self.read_header(fabric, data),
            Stage::Payload { sequence: _, revision: _, length: _ } => self.read_payload(
                fabric,
                data,
            ),
            _ => (LinkAction::Pending, Some(self)),
        }
    }

    /// Goes on when bytes of a credit have been written.
    fn wrote<P: Carries<E::Payload>>(
        self,
        fabric: &mut DynamicFabric<P>,
        count: usize,
    ) -> (result: (
        LinkAction,
        Option<Self>,
    ))
        requires
            old(fabric).wf(),
            self.valid(old(fabric)),
            self.view().expects(ImportInput::CreditWritten(count as nat)),
        ensures
            final(fabric).wf(),
            final(fabric).root() == old(fabric).root(),
            result.1 matches Some(next) ==> next.valid(final(fabric)),
            result.1 is None ==> self.view().ends(final(fabric)@.ledger),
            self.view().beside(old(fabric)@, final(fabric)@, result.1 is None),
            result.1 matches Some(next) ==> self.view().renews(next.view(), old(fabric)@.ledger),
            forall|decoded: Result<E::Payload, WireError>|
                became(
                    result,
                    final(fabric)@,
                    #[trigger] self.view().step(
                        old(fabric)@,
                        ImportInput::CreditWritten(count as nat),
                        declared::<E, P>(),
                        decoded,
                    ),
                ),
    {
        if count == 0 {
            return self.fail(fabric, write_refused_error());
        }
        let mut next = self;
        let mut stage = Stage::Header;
        std::mem::swap(&mut stage, &mut next.stage);
        match stage {
            Stage::Credit { sequence, credit, written } => {
                if written + count < CREDIT_BYTES {
                    next.stage = Stage::Credit { sequence, credit, written: written + count };
                    (LinkAction::Write, Some(next))
                } else {
                    assert(next.header@ =~= Seq::empty());
                    (LinkAction::Yield, Some(next))
                }
            },
            other => {
                next.stage = other;
                (LinkAction::Pending, Some(next))
            },
        }
    }

    /// Does what an event asks for.
    fn step<P: Carries<E::Payload>>(
        self,
        fabric: &mut DynamicFabric<P>,
        event: ImportEvent<'_>,
    ) -> (result: (
        LinkAction,
        Option<Self>,
    ))
        requires
            old(fabric).wf(),
            self.valid(old(fabric)),
            self.view().expects(event@),
        ensures
            final(fabric).wf(),
            final(fabric).root() == old(fabric).root(),
            result.1 matches Some(next) ==> next.valid(final(fabric)),
            result.1 is None ==> self.view().ends(final(fabric)@.ledger),
            self.view().beside(old(fabric)@, final(fabric)@, result.1 is None),
            result.1 matches Some(next) ==> self.view().renews(next.view(), old(fabric)@.ledger),
            exists|decoded: Result<E::Payload, WireError>| #[trigger]
                explains::<E>(self.view().completes(event@, declared::<E, P>()), decoded) && became(
                    result,
                    final(fabric)@,
                    self.view().step(old(fabric)@, event@, declared::<E, P>(), decoded),
                ),
    {
        let ghost handed = self.view().completes(event@, declared::<E, P>());
        let ghost none = Err::<E::Payload, WireError>(WireError::Truncated);
        assert(handed is None ==> explains::<E>(handed, none));
        match event {
            ImportEvent::Polled => {
                if self.grant.is_revoked(fabric) {
                    self.fail(fabric, IpcError::Revoked)
                } else {
                    (LinkAction::PollControl(1), Some(self))
                }
            },
            ImportEvent::ControlPending => self.advance(fabric),
            ImportEvent::ControlRead(count) => {
                if count == 0 {
                    self.fail(fabric, control_closed_error())
                } else {
                    self.fail(fabric, IpcError::Protocol)
                }
            },
            ImportEvent::ControlFailed(failure) => self.fail(fabric, IpcError::Io(failure)),
            ImportEvent::DataRead(data) => self.read(fabric, data),
            ImportEvent::CreditWritten(count) => self.wrote(fabric, count),
            ImportEvent::SocketPending => (LinkAction::Pending, Some(self)),
            ImportEvent::SocketFailed(failure) => self.fail(fabric, IpcError::Io(failure)),
        }
    }
}

/// Caller-driven import of one event into one stream.
///
/// The application owns the two sockets, tells the link what they did, and does what the
/// link asks for. One frame is handled at a time; its credit goes out only after local
/// admission.
#[must_use]
pub struct UnixImport<E: WireCodec> {
    state: Option<ImportState<E>>,
}

impl<E: WireCodec> View for UnixImport<E> {
    type V = Option<ImportView<E::Payload>>;

    closed spec fn view(&self) -> Option<ImportView<E::Payload>> {
        match self.state {
            Some(state) => Some(state.view()),
            None => None,
        }
    }
}

impl<E: WireCodec> UnixImport<E> {
    /// The link belongs to this fabric.
    pub closed spec fn valid<P: Carries<E::Payload>>(&self, fabric: &DynamicFabric<P>) -> bool {
        self.state matches Some(state) ==> state.valid(fabric)
    }

    /// A link stays valid while its stream, its charges and its grant stay.
    pub proof fn lemma_still_valid<P: Carries<E::Payload>>(
        &self,
        before: DynamicFabric<P>,
        after: DynamicFabric<P>,
    )
        requires
            self.valid(&before),
            self@ matches Some(link) ==> {
                &&& link.node < after@.ledger.nodes.len()
                &&& after@.ledger.nodes[link.node as int].handles >= 2
                &&& forall|t: nat| #[trigger]
                    link.owns(t) ==> stays(before@.ledger, after@.ledger, t)
            },
            same_declared(before@, after@),
            after.root() == before.root(),
        ensures
            self.valid(&after),
    {
        if self.state is Some {
            let state = self.state->0;
            let link = state.view();
            assert(link.owns(state.lease.ticket()));
            match state.stage {
                Stage::Sending { sequence, pending } => {
                    assert(link.owns(pending.ticket()));
                    pending.lemma_still_valid(before, after);
                },
                _ => {},
            }
        }
    }

    /// What a running link holds is outstanding, its own charge with what a link takes, and
    /// its grant has two handles for it.
    pub proof fn lemma_holds<P: Carries<E::Payload>>(&self, fabric: DynamicFabric<P>)
        requires
            self.valid(&fabric),
        ensures
            self@ matches Some(link) ==> {
                &&& forall|t: nat| #[trigger] link.owns(t) ==> lasting(fabric@.ledger, t)
                &&& fabric.wf() ==> link.held(fabric@)
                &&& fabric@.ledger.record(link.lease) == link_charge(link.node, link.limit)
                &&& bound_fits(link.limit)
                &&& link.node < fabric@.ledger.nodes.len()
                &&& fabric@.ledger.nodes[link.node as int].handles >= 2
            },
    {
        if self.state is Some {
            let state = self.state->0;
            assert(fabric@.ledger.outstanding(state.lease.ticket()));
        }
    }

    /// Claims what the link needs but its payload buffer.
    fn claim<P: Carries<E::Payload>>(
        fabric: &mut DynamicFabric<P>,
        grant: Grant,
        max_payload: usize,
    ) -> (result:
        Result<(Grant, Lease, DynamicSender<E>), IpcError>)
        requires
            old(fabric).wf(),
            old(fabric).knows(&grant),
            grant.node() != old(fabric).root(),
            old(fabric)@.ledger.nodes[grant.node() as int].handles < usize::MAX,
        ensures
            final(fabric).wf(),
            final(fabric).root() == old(fabric).root(),
            ({
                let (found, after) = claim_import(
                    old(fabric)@,
                    grant.node(),
                    declared::<E, P>(),
                    max_payload as nat,
                );
                &&& final(fabric)@ == after
                &&& match found {
                    Ok((stream, ticket)) => {
                        &&& result matches Ok((kept, lease, sender))
                        &&& kept == grant
                        &&& lease.ticket() == ticket
                        &&& sender.stream() == stream
                    },
                    Err(fault) => result is Err && result->Err_0@ == fault,
                }
            }),
            result matches Ok((_, lease, sender)) ==> {
                &&& lease.recorded(final(fabric)@.ledger.table, Owner::Link)
                &&& lease.record(Owner::Link) == link_charge(grant.node(), max_payload as nat)
                &&& lease.ticket() == old(fabric)@.ledger.table.len()
                &&& sender.valid(final(fabric))
                &&& sender.node() == grant.node()
                &&& bound_fits(max_payload as nat)
            },
            final(fabric)@.streams == old(fabric)@.streams,
            enduring(old(fabric)@.ledger, final(fabric)@.ledger),
            settled(
                old(fabric)@.ledger,
                final(fabric)@.ledger,
                grant.node(),
                if result is Ok {
                    1
                } else {
                    -1
                },
            ),
            result matches Ok((_, lease, _)) ==> forall|t: nat|
                t != lease.ticket() && #[trigger] final(fabric)@.ledger.outstanding(t) ==> old(
                    fabric,
                )@.ledger.outstanding(t) && final(fabric)@.ledger.record(t) == old(
                    fabric,
                )@.ledger.record(t),
            result is Err ==> fewer(old(fabric)@.ledger, final(fabric)@.ledger),
    {
        proof {
            reveal(claim_import);
        }
        match fabric.ledger().can_enter(&grant, E::ID, Rights::publish()) {
            Ok(_) => {},
            Err(error) => {
                grant.release(fabric);
                return Err(IpcError::Topic(error));
            },
        }
        let limits = match link_limits(max_payload) {
            Ok(limits) => limits,
            Err(error) => {
                fabric.pass(&grant);
                grant.release(fabric);
                return Err(error);
            },
        };
        let lease = match fabric.charge_link(&grant, limits) {
            Ok(lease) => lease,
            Err(error) => {
                fabric.pass(&grant);
                grant.release(fabric);
                return Err(IpcError::Topic(error));
            },
        };
        assert(lasting(fabric@.ledger, lease.ticket()));
        match grant.sender::<E, P>(fabric) {
            Ok(sender) => Ok((grant, lease, sender)),
            Err(error) => {
                let ghost bound = fabric@;
                fabric.put_back(lease, Ghost(Owner::Link));
                proof {
                    lemma_kept_steady(bound.ledger, fabric@.ledger);
                }
                fabric.pass(&grant);
                grant.release(fabric);
                Err(IpcError::Topic(error))
            },
        }
    }

    /// Makes a link of what it has claimed and its payload buffer, or gives it all back
    /// when there is no buffer.
    fn equip<P: Carries<E::Payload>>(
        fabric: &mut DynamicFabric<P>,
        claimed: (Grant, Lease, DynamicSender<E>),
        buffer: Result<Vec<u8>, IpcError>,
    ) -> (result: Result<UnixImport<E>, IpcError>)
        requires
            old(fabric).wf(),
            claimed.0.node() != old(fabric).root(),
            claimed.1.recorded(old(fabric)@.ledger.table, Owner::Link),
            claimed.2.valid(old(fabric)),
            claimed.2.node() == claimed.0.node(),
            old(fabric)@.ledger.nodes[claimed.0.node() as int].handles >= 2,
            buffer matches Ok(bytes) ==> bound_fits(bytes@.len()) && claimed.1.record(Owner::Link)
                == link_charge(claimed.0.node(), bytes@.len()),
        ensures
            final(fabric).wf(),
            final(fabric).root() == old(fabric).root(),
            ({
                let (grant, lease, sender) = claimed;
                match buffer {
                    Ok(bytes) => {
                        &&& final(fabric)@ == old(fabric)@.passed(grant.node())
                        &&& result matches Ok(link)
                        &&& link.valid(final(fabric))
                        &&& link@ == Some(
                            imported::<E::Payload>(
                                grant.node(),
                                sender.stream(),
                                lease.ticket(),
                                bytes@.len(),
                            ),
                        )
                    },
                    Err(error) => {
                        &&& final(fabric)@ == old(fabric)@.drop_handle(grant.node()).release(
                            lease.ticket(),
                        ).passed(grant.node()).drop_handle(grant.node())
                        &&& result == Err::<UnixImport<E>, IpcError>(error)
                    },
                }
            }),
            final(fabric)@.streams == old(fabric)@.streams,
            forall|t: nat|
                t != claimed.1.ticket() && #[trigger] lasting(old(fabric)@.ledger, t) ==> stays(
                    old(fabric)@.ledger,
                    final(fabric)@.ledger,
                    t,
                ) && lasting(final(fabric)@.ledger, t),
            settled(
                old(fabric)@.ledger,
                final(fabric)@.ledger,
                claimed.0.node(),
                if result is Ok {
                    0
                } else {
                    -2
                },
            ),
            fewer(old(fabric)@.ledger, final(fabric)@.ledger),
            result is Err ==> !final(fabric)@.ledger.outstanding(claimed.1.ticket()),
    {
        let (grant, lease, sender) = claimed;
        assert(lasting(fabric@.ledger, lease.ticket()));
        match buffer {
            Ok(buffer) => {
                fabric.pass(&grant);
                let state = ImportState {
                    grant,
                    lease,
                    sender,
                    header: Vec::new(),
                    buffer,
                    filled: 0,
                    previous: None,
                    stage: Stage::Header,
                };
                assert(state.header@ =~= Seq::empty());
                Ok(UnixImport { state: Some(state) })
            },
            Err(error) => {
                sender.release(fabric);
                let ghost bound = fabric@;
                fabric.put_back(lease, Ghost(Owner::Link));
                proof {
                    lemma_kept_steady(bound.ledger, fabric@.ledger);
                }
                fabric.pass(&grant);
                grant.release(fabric);
                Err(error)
            },
        }
    }

    /// Binds an import to the exact stream that the grant names.
    ///
    /// # Errors
    ///
    /// Returns [`IpcError::Topic`] when the grant is revoked, lacks publication rights or
    /// resource allowance, or cannot bind the event's stream. Payload bounds exceeding the
    /// wire's `u32` length range are rejected. Failure to reserve the payload buffer
    /// returns [`TopicError::Capacity`]. A failure leaves no reservation behind.
    pub fn bind<P: Carries<E::Payload>>(
        fabric: &mut DynamicFabric<P>,
        grant: Grant,
        max_payload: usize,
    ) -> (result: Result<UnixImport<E>, IpcError>)
        requires
            old(fabric).wf(),
            old(fabric).knows(&grant),
            grant.node() != old(fabric).root(),
            old(fabric)@.ledger.nodes[grant.node() as int].handles < usize::MAX,
        ensures
            final(fabric).wf(),
            final(fabric).root() == old(fabric).root(),
            ({
                let v = old(fabric)@;
                let d = declared::<E, P>();
                let m = max_payload as nat;
                if claim_import(v, grant.node(), d, m).0 is Err {
                    import_bound(
                        result,
                        final(fabric),
                        grant.node(),
                        m,
                        claim_import(v, grant.node(), d, m),
                    )
                } else {
                    exists|room: Reservation| #[trigger]
                        room.is_for(m) && import_bound(
                            result,
                            final(fabric),
                            grant.node(),
                            m,
                            bind_import(v, grant.node(), d, m, room.granted()),
                        )
                }
            }),
            result matches Ok(link) ==> link@->0.lease == old(fabric)@.ledger.table.len(),
            final(fabric)@.streams == old(fabric)@.streams,
            enduring(old(fabric)@.ledger, final(fabric)@.ledger),
            settled(
                old(fabric)@.ledger,
                final(fabric)@.ledger,
                grant.node(),
                if result is Ok {
                    1
                } else {
                    -1
                },
            ),
            result is Err ==> fewer(old(fabric)@.ledger, final(fabric)@.ledger),
    {
        proof {
            reveal(bind_import);
        }
        match Self::claim(fabric, grant, max_payload) {
            Ok(claimed) => Self::equip(fabric, claimed, payload_buffer(max_payload)),
            Err(error) => Err(error),
        }
    }

    /// Binds an import as [`Self::bind`] does, with this outcome of the request for its
    /// payload buffer.
    ///
    /// # Errors
    ///
    /// Fails as [`Self::bind`] does, and returns [`TopicError::Capacity`] when there is no
    /// buffer.
    pub fn bind_with<P: Carries<E::Payload>>(
        fabric: &mut DynamicFabric<P>,
        grant: Grant,
        max_payload: usize,
        buffer: Option<Vec<u8>>,
    ) -> (result: Result<UnixImport<E>, IpcError>)
        requires
            old(fabric).wf(),
            old(fabric).knows(&grant),
            grant.node() != old(fabric).root(),
            old(fabric)@.ledger.nodes[grant.node() as int].handles < usize::MAX,
            buffer matches Some(bytes) ==> bytes@.len() == 0,
        ensures
            final(fabric).wf(),
            final(fabric).root() == old(fabric).root(),
            import_bound(
                result,
                final(fabric),
                grant.node(),
                max_payload as nat,
                bind_import(
                    old(fabric)@,
                    grant.node(),
                    declared::<E, P>(),
                    max_payload as nat,
                    buffer is Some,
                ),
            ),
            result matches Ok(link) ==> link@->0.lease == old(fabric)@.ledger.table.len(),
            final(fabric)@.streams == old(fabric)@.streams,
            enduring(old(fabric)@.ledger, final(fabric)@.ledger),
            settled(
                old(fabric)@.ledger,
                final(fabric)@.ledger,
                grant.node(),
                if result is Ok {
                    1
                } else {
                    -1
                },
            ),
            result is Err ==> fewer(old(fabric)@.ledger, final(fabric)@.ledger),
    {
        proof {
            reveal(bind_import);
        }
        match Self::claim(fabric, grant, max_payload) {
            Ok(claimed) => Self::equip(fabric, claimed, filled(buffer, max_payload)),
            Err(error) => Err(error),
        }
    }

    /// Tells the link what happened, and what to do next. After [`LinkAction::Done`] the
    /// link holds nothing any more, and every further event is answered with success.
    pub fn step<P: Carries<E::Payload>>(
        &mut self,
        fabric: &mut DynamicFabric<P>,
        event: ImportEvent<'_>,
    ) -> (action:
        LinkAction)
        requires
            old(fabric).wf(),
            old(self).valid(old(fabric)),
            old(self)@ matches Some(link) ==> link.expects(event@),
        ensures
            final(fabric).wf(),
            final(fabric).root() == old(fabric).root(),
            final(self).valid(final(fabric)),
            match old(self)@ {
                None => {
                    &&& action@ == LinkReply::Done(None)
                    &&& final(self)@ is None
                    &&& final(fabric)@ == old(fabric)@
                },
                Some(link) => exists|decoded: Result<E::Payload, WireError>| #[trigger]
                    explains::<E>(link.completes(event@, declared::<E, P>()), decoded) && (
                        action@,
                        final(self)@,
                        final(fabric)@,
                    ) == link.step(old(fabric)@, event@, declared::<E, P>(), decoded),
            },
            old(self)@ is Some && final(self)@ is None ==> old(self)@->0.ends(
                final(fabric)@.ledger,
            ),
            old(self)@ matches Some(link) ==> link.beside(
                old(fabric)@,
                final(fabric)@,
                final(self)@ is None,
            ),
            old(self)@ is Some && final(self)@ is Some ==> old(self)@->0.renews(
                final(self)@->0,
                old(fabric)@.ledger,
            ),
    {
        match self.state.take() {
            None => LinkAction::Done(Ok(())),
            Some(state) => {
                let (action, next) = state.step(fabric, event);
                self.state = next;
                action
            },
        }
    }

    /// The bytes of the credit that are still to write.
    pub fn outgoing<'a, P: Carries<E::Payload>>(
        &'a self,
        fabric: &DynamicFabric<P>,
    ) -> (bytes: &'a [u8])
        requires
            self.valid(fabric),
        ensures
            bytes@ == match self@ {
                Some(link) => link.outgoing(),
                None => Seq::empty(),
            },
    {
        match &self.state {
            Some(state) => match &state.stage {
                Stage::Credit { sequence, credit, written } => {
                    proof {
                        law_credit(*sequence, *sequence);
                    }
                    vstd::slice::slice_subrange(credit, *written, CREDIT_BYTES)
                },
                _ => {
                    let none: &'a [u8] = &[];
                    assert(none@ =~= Seq::empty());
                    none
                },
            },
            None => {
                let none: &'a [u8] = &[];
                assert(none@ =~= Seq::empty());
                none
            },
        }
    }

    /// Tests whether the link has not ended yet.
    pub fn is_running(&self) -> (running: bool)
        ensures
            running == (self@ is Some),
    {
        self.state.is_some()
    }

    /// Tests whether a payload waits for local admission. Only then does a change of the
    /// stream let the link go on.
    pub fn awaits_stream(&self) -> (waiting: bool)
        ensures
            waiting == (self@ matches Some(link) && link.stage is Sending),
    {
        match &self.state {
            Some(state) => matches!(state.stage, Stage::Sending { .. }),
            None => false,
        }
    }

    /// Ends the link before it is done.
    pub fn cancel<P: Carries<E::Payload>>(self, fabric: &mut DynamicFabric<P>)
        requires
            old(fabric).wf(),
            self.valid(old(fabric)),
        ensures
            final(fabric).wf(),
            final(fabric).root() == old(fabric).root(),
            final(fabric)@ == match self@ {
                Some(link) => link.ended(old(fabric)@),
                None => old(fabric)@,
            },
            self@ matches Some(link) ==> link.gone(old(fabric)@.ledger, final(fabric)@.ledger)
                && link.beside(old(fabric)@, final(fabric)@, true),
    {
        match self.state {
            Some(state) => state.end(fabric),
            None => {},
        }
    }
}

/// Gives back a sender, a charge and a handle.
fn release_all<E: EventSpec, P: Carries<E::Payload>>(
    grant: Grant,
    lease: Lease,
    sender: DynamicSender<E>,
    fabric: &mut DynamicFabric<P>,
)
    requires
        old(fabric).wf(),
        lease.recorded(old(fabric)@.ledger.table, Owner::Link),
        sender.valid(old(fabric)),
        sender.node() == grant.node(),
        grant.node() != old(fabric).root(),
        old(fabric)@.ledger.nodes[grant.node() as int].handles >= 2,
    ensures
        final(fabric).wf(),
        final(fabric).root() == old(fabric).root(),
        final(fabric)@ == old(fabric)@.drop_handle(grant.node()).release(
            lease.ticket(),
        ).drop_handle(grant.node()),
        fewer(old(fabric)@.ledger, final(fabric)@.ledger),
        !final(fabric)@.ledger.outstanding(lease.ticket()),
        same_members(old(fabric)@, final(fabric)@),
        forall|t: nat|
            t != lease.ticket() && #[trigger] lasting(old(fabric)@.ledger, t) ==> stays(
                old(fabric)@.ledger,
                final(fabric)@.ledger,
                t,
            ) && lasting(final(fabric)@.ledger, t),
        settled(old(fabric)@.ledger, final(fabric)@.ledger, grant.node(), -2),
{
    assert(lasting(fabric@.ledger, lease.ticket()));
    sender.release(fabric);
    let ghost middle = fabric@;
    fabric.put_back(lease, Ghost(Owner::Link));
    proof {
        lemma_kept_steady(middle.ledger, fabric@.ledger);
    }
    grant.release(fabric);
}

} // verus!
