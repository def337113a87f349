//! The exporting end of a link: local publications go out as frames, credits come back.
use crate::endpoint::{DynamicReceiver, PendingReceive, ReceiveStep};
use crate::error::TopicError;
use crate::event::EventSpec;
use crate::fabric::{declared, DynamicFabric};
use crate::fabric_laws::{fewer, lasting, settled, stays};
use crate::fabric_model::{one_subscription, role_rights, Declaration, FabricView, ReceiveVerdict};
use crate::fabric_steps::{lemma_kept_steady, same_declared, same_members};
use crate::grant::Rights;
use crate::ipc::{
    bound_fits, check_credit, early_end, early_end_error, encode_header, filled, header_bytes,
    is_credit, link_allowance, link_charge, link_limits, payload_buffer, write_refused,
    write_refused_error, IoFailure, IpcError, IpcFault, LinkAction, LinkReply, CREDIT_BYTES,
    HEADER_BYTES,
};
use crate::item::{StreamItem, SubscriptionRole};
use crate::ledger::{Grant, Lease, Ledger};
use crate::ledger_model::{LeaseRecord, LedgerView, Owner};
use crate::payload::Carries;
use crate::reserve::Reservation;
use crate::wire::{WireCodec, WireError};
use vstd::prelude::*;

verus! {

broadcast use {
    Ledger::lemma_wf,
    DynamicFabric::lemma_wf,
    PendingReceive::lemma_waiter,
    DynamicReceiver::lemma_receiver,
};

/// What happens to an exporting link.
pub enum ExportEvent<'a> {
    /// The link is polled.
    Polled,
    /// The control socket has nothing yet.
    ControlPending,
    /// The control socket gave these bytes; none stands for its end.
    ControlRead(&'a [u8]),
    /// The control socket failed.
    ControlFailed(IoFailure),
    /// The data socket took that many bytes.
    DataWritten(usize),
    /// The data socket makes no progress yet.
    DataPending,
    /// The data socket failed.
    DataFailed(IoFailure),
}

/// What an [`ExportEvent`] says.
pub enum ExportInput {
    /// See [`ExportEvent::Polled`].
    Polled,
    /// See [`ExportEvent::ControlPending`].
    ControlPending,
    /// See [`ExportEvent::ControlRead`].
    ControlRead(Seq<u8>),
    /// See [`ExportEvent::DataWritten`].
    DataWritten(nat),
    /// See [`ExportEvent::DataPending`].
    DataPending,
    /// See [`ExportEvent::ControlFailed`] and [`ExportEvent::DataFailed`].
    Failed(IpcFault),
}

impl<'a> View for ExportEvent<'a> {
    type V = ExportInput;

    open spec fn view(&self) -> ExportInput {
        match self {
            ExportEvent::Polled => ExportInput::Polled,
            ExportEvent::ControlPending => ExportInput::ControlPending,
            ExportEvent::ControlRead(data) => ExportInput::ControlRead(data@),
            ExportEvent::ControlFailed(failure) => ExportInput::Failed(
                IpcFault::Io(failure.kind, failure.text@),
            ),
            ExportEvent::DataWritten(count) => ExportInput::DataWritten(*count as nat),
            ExportEvent::DataPending => ExportInput::DataPending,
            ExportEvent::DataFailed(failure) => ExportInput::Failed(
                IpcFault::Io(failure.kind, failure.text@),
            ),
        }
    }
}

/// How far an exporting link is with a frame.
pub enum ExportStage {
    /// There is no frame. The next publication is taken once no credit is outstanding.
    Ready,
    /// The link waits for a publication, with the ticket of its waiter.
    Receiving(nat),
    /// A frame of a header and a payload goes out; that many bytes are written.
    Writing(Seq<u8>, Seq<u8>, nat),
}

/// What the codec made of a payload.
pub struct Encoding {
    /// The length that it announced.
    pub length: usize,
    /// What it returned.
    pub result: Result<usize, WireError>,
    /// What it left in the buffer.
    pub bytes: Seq<u8>,
}

/// An exporting link that has not ended.
pub struct ExportView {
    /// Slot of the grant.
    pub node: nat,
    /// Slot of the stream.
    pub stream: nat,
    /// Subscriber slot in the stream.
    pub index: nat,
    /// Identity of the cursor.
    pub id: u64,
    /// The charge of the subscription.
    pub ticket: nat,
    /// The charge of the link.
    pub lease: nat,
    /// Payload bound.
    pub limit: nat,
    /// A frame awaits its credit.
    pub outstanding: bool,
    /// Sequence of the last frame.
    pub sequence: u64,
    /// The bytes of a credit that have come.
    pub control: Seq<u8>,
    /// A credit was taken since the link was polled.
    pub again: bool,
    /// How far the link is.
    pub stage: ExportStage,
}

/// What a link does next, what is left of it, and the fabric afterwards.
pub type ExportOutcome<P> = (LinkReply, Option<ExportView>, FabricView<P>);

impl ExportView {
    pub open spec fn at(self, stage: ExportStage) -> ExportView {
        ExportView { stage, ..self }
    }

    /// The fabric after the link has given back all that it held.
    pub open spec fn ended<P>(self, v: FabricView<P>) -> FabricView<P> {
        let quiet = match self.stage {
            ExportStage::Receiving(ticket) => v.end_wait(self.stream, ticket),
            _ => v,
        };
        quiet.detach(self.stream, self.index, self.node, self.ticket).release(
            self.lease,
        ).drop_handle(self.node)
    }

    /// What the link holds is in the fabric: its charge and that of its subscription, the
    /// charge of its waiter if it waits, and two handles of its grant.
    pub open spec fn held<P>(self, v: FabricView<P>) -> bool {
        &&& v.wf()
        &&& self.stream < v.streams.len()
        &&& self.node < v.ledger.nodes.len()
        &&& v.ledger.nodes[self.node as int].handles >= 2
        &&& bound_fits(self.limit)
        &&& v.ledger.outstanding(self.lease)
        &&& v.ledger.record(self.lease) == link_charge(self.node, self.limit)
        &&& v.ledger.outstanding(self.ticket)
        &&& v.ledger.record(self.ticket) == (LeaseRecord {
            node: self.node,
            usage: one_subscription().widened(),
            owner: Owner::Receiver(self.stream, self.id as nat),
            ..v.ledger.record(self.ticket)
        })
        &&& self.stage matches ExportStage::Receiving(ticket) ==> v.ledger.outstanding(ticket)
            && v.ledger.record(ticket).owner == Owner::Waiter(self.stream)
    }

    /// Nothing that the link held is outstanding.
    pub open spec fn ends(self, ledger: LedgerView) -> bool {
        &&& !ledger.outstanding(self.lease)
        &&& !ledger.outstanding(self.ticket)
        &&& self.stage matches ExportStage::Receiving(ticket) ==> !ledger.outstanding(ticket)
    }

    /// Nothing that the link held is outstanding, and nothing new is.
    pub open spec fn gone(self, before: LedgerView, after: LedgerView) -> bool {
        fewer(before, after) && self.ends(after)
    }

    /// The charge is the link's.
    pub open spec fn owns(self, ticket: nat) -> bool {
        ||| ticket == self.lease
        ||| ticket == self.ticket
        ||| self.stage matches ExportStage::Receiving(waiter) && waiter == ticket
    }

    /// What the link holds next it holds already, or it is new.
    pub open spec fn renews(self, next: ExportView, before: LedgerView) -> bool {
        &&& next.node == self.node
        &&& forall|t: nat| #[trigger] next.owns(t) ==> self.owns(t) || t >= before.table.len()
    }

    /// What the link leaves as it was: every lasting charge but its own, the handles of
    /// all grants but the two that it gives back at its end.
    pub open spec fn beside<P>(
        self,
        before: FabricView<P>,
        after: FabricView<P>,
        ended: bool,
    ) -> bool {
        &&& same_declared(before, after)
        &&& forall|t: nat|
            !self.owns(t) && #[trigger] lasting(before.ledger, t) ==> stays(
                before.ledger,
                after.ledger,
                t,
            ) && lasting(after.ledger, t)
        &&& settled(
            before.ledger,
            after.ledger,
            self.node,
            if ended {
                -2
            } else {
                0
            },
        )
    }

    /// The link ends with a failure.
    pub open spec fn fail<P>(self, v: FabricView<P>, fault: IpcFault) -> ExportOutcome<P> {
        (LinkReply::Done(Some(fault)), None, self.ended(v))
    }

    /// Nothing more can be done in this poll.
    pub open spec fn idle<P>(self, v: FabricView<P>) -> ExportOutcome<P> {
        (
            if self.again {
                LinkReply::Yield
            } else {
                LinkReply::Pending
            },
            Some(self),
            v,
        )
    }

    /// The bytes to write next: the rest of the header, or else of the payload.
    pub open spec fn outgoing(self) -> Seq<u8> {
        match self.stage {
            ExportStage::Writing(header, payload, written) => if written < header.len() {
                header.subrange(written as int, header.len() as int)
            } else {
                payload.subrange(written - header.len(), payload.len() as int)
            },
            _ => Seq::empty(),
        }
    }

    /// A publication has been taken from the stream.
    pub open spec fn framed<P>(
        self,
        v: FabricView<P>,
        sequence: u64,
        declaration: Declaration,
        revision: u32,
        encoding: Encoding,
    ) -> ExportOutcome<P> {
        if encoding.length > self.limit {
            self.fail(v, IpcFault::Oversized(encoding.length as nat, self.limit))
        } else {
            match encoding.result {
                Err(error) => self.fail(v, IpcFault::Wire(error)),
                Ok(encoded) => if encoded != encoding.length {
                    self.fail(v, IpcFault::Wire(WireError::InvalidPayload))
                } else {
                    (
                        LinkReply::Write,
                        Some(
                            ExportView {
                                outstanding: true,
                                sequence,
                                stage: ExportStage::Writing(
                                    header_bytes(
                                        declaration.event,
                                        declaration.wire_major,
                                        revision,
                                        sequence,
                                        encoding.length as nat,
                                    ),
                                    encoding.bytes,
                                    0,
                                ),
                                ..self
                            },
                        ),
                        v,
                    )
                },
            }
        }
    }

    /// An attempt to receive came to a verdict.
    pub open spec fn attempted<P>(
        self,
        v: FabricView<P>,
        verdict: ReceiveVerdict<P>,
        declaration: Declaration,
        revision: u32,
        encoding: Encoding,
    ) -> ExportOutcome<P> {
        let ready = self.at(ExportStage::Ready);
        match verdict {
            ReceiveVerdict::Received(StreamItem::Data { sequence, value }) => ready.framed(
                v,
                sequence,
                declaration,
                revision,
                encoding,
            ),
            ReceiveVerdict::Received(StreamItem::Gap { from, to }) => ready.fail(
                v,
                IpcFault::Gap(from, to),
            ),
            ReceiveVerdict::Failed(error) => ready.fail(v, IpcFault::Receive(error)),
            ReceiveVerdict::Waiting(ticket) => self.at(ExportStage::Receiving(ticket)).idle(v),
        }
    }

    /// The attempt to receive that the link makes, if it makes one.
    pub open spec fn attempt<P>(self, v: FabricView<P>) -> Option<
        (ReceiveVerdict<P>, FabricView<P>),
    > {
        match self.stage {
            ExportStage::Ready => if self.outstanding {
                None
            } else {
                Some(v.recv_first(self.stream, self.index, self.id, self.node))
            },
            ExportStage::Receiving(ticket) => Some(
                v.recv_again(self.stream, self.index, self.id, self.node, ticket),
            ),
            ExportStage::Writing(_, _, _) => None,
        }
    }

    /// What the link does once the control socket has been looked at.
    pub open spec fn advance<P>(
        self,
        v: FabricView<P>,
        declaration: Declaration,
        revision: u32,
        encoding: Encoding,
    ) -> ExportOutcome<P> {
        match self.attempt(v) {
            Some((verdict, after)) => self.attempted(
                after,
                verdict,
                declaration,
                revision,
                encoding,
            ),
            None => if self.stage is Ready {
                self.idle(v)
            } else {
                (LinkReply::Write, Some(self), v)
            },
        }
    }

    /// The link after a credit has been taken.
    pub open spec fn credited(self) -> ExportView {
        ExportView { outstanding: false, control: Seq::empty(), again: true, ..self }
    }

    /// The bytes are the credit that the link waits for.
    pub open spec fn accepts(self, credit: Seq<u8>) -> bool {
        self.outstanding && is_credit(credit, self.sequence)
    }

    /// The event can come at this stage.
    pub open spec fn expects(self, input: ExportInput) -> bool {
        match input {
            ExportInput::ControlRead(data) => self.control.len() + data.len() <= CREDIT_BYTES,
            ExportInput::DataWritten(count) => self.stage is Writing && count
                <= self.outgoing().len(),
            _ => true,
        }
    }

    /// The payload that an event hands to the codec, if it does.
    pub open spec fn hands<P>(self, v: FabricView<P>, input: ExportInput) -> Option<P> {
        let attempt = match input {
            ExportInput::ControlPending => self.attempt(v),
            ExportInput::ControlRead(data) => if data.len() > 0 && self.control.len() + data.len()
                == CREDIT_BYTES && self.accepts(self.control + data) {
                self.credited().attempt(v)
            } else {
                None
            },
            _ => None,
        };
        match attempt {
            Some((ReceiveVerdict::Received(StreamItem::Data { sequence, value }), _)) => Some(
                value,
            ),
            _ => None,
        }
    }

    /// What the link does about an event. `encoding` is what the codec made of the payload
    /// that it is handed, if it is handed one.
    pub open spec fn step<P>(
        self,
        v: FabricView<P>,
        input: ExportInput,
        declaration: Declaration,
        revision: u32,
        encoding: Encoding,
    ) -> ExportOutcome<P> {
        match input {
            ExportInput::Polled => if v.ledger.nodes[self.node as int].revoked {
                self.fail(v, IpcFault::Revoked)
            } else {
                (
                    LinkReply::PollControl((CREDIT_BYTES - self.control.len()) as nat),
                    Some(ExportView { again: false, ..self }),
                    v,
                )
            },
            ExportInput::ControlPending => self.advance(v, declaration, revision, encoding),
            ExportInput::ControlRead(data) => {
                let control = self.control + data;
                if data.len() == 0 {
                    self.fail(v, early_end())
                } else if control.len() < CREDIT_BYTES {
                    (
                        LinkReply::PollControl((CREDIT_BYTES - control.len()) as nat),
                        Some(ExportView { control, ..self }),
                        v,
                    )
                } else if self.accepts(control) {
                    self.credited().advance(v, declaration, revision, encoding)
                } else {
                    self.fail(v, IpcFault::Protocol)
                }
            },
            ExportInput::DataWritten(count) => match self.stage {
                ExportStage::Writing(header, payload, written) => if count == 0 {
                    self.fail(v, write_refused())
                } else if written + count < header.len() + payload.len() {
                    (
                        LinkReply::Write,
                        Some(self.at(ExportStage::Writing(header, payload, written + count))),
                        v,
                    )
                } else {
                    (LinkReply::Yield, Some(self.at(ExportStage::Ready)), v)
                },
                _ => (LinkReply::Pending, Some(self), v),
            },
            ExportInput::DataPending => self.idle(v),
            ExportInput::Failed(fault) => self.fail(v, fault),
        }
    }
}

/// What the codec made of the payload that it was handed, if it was handed one.
pub open spec fn explains<E: WireCodec, P: Carries<E::Payload>>(
    handed: Option<P>,
    limit: nat,
    encoding: Encoding,
) -> bool {
    handed matches Some(value) ==> encoded_as::<E>(value.payload(), limit, encoding)
}

/// What the codec made of a payload.
pub open spec fn encoded_as<E: WireCodec>(
    payload: E::Payload,
    limit: nat,
    encoding: Encoding,
) -> bool {
    &&& E::measures(payload, encoding.length)
    &&& encoding.length <= limit ==> E::encodes(payload, encoding.bytes, encoding.result)
        && encoding.bytes.len() == encoding.length
}

/// Claiming what an exporting link needs but its payload buffer: its subscription and the
/// charge, or the failure, and the fabric afterwards.
#[verifier::opaque]
pub open spec fn claim_export<P>(
    v: FabricView<P>,
    node: nat,
    declaration: Declaration,
    role: SubscriptionRole,
    max_payload: nat,
) -> (Result<(nat, nat, nat), IpcFault>, FabricView<P>) {
    let lease = v.ledger.table.len();
    match v.ledger.enter_error(node, declaration.event, role_rights(role)) {
        Some(error) => (Err(IpcFault::Topic(error)), v.drop_handle(node)),
        None => if !bound_fits(max_payload) {
            (
                Err(IpcFault::Topic(TopicError::InvalidConfig)),
                v.passed(node).drop_handle(node),
            )
        } else {
            match v.ledger.charge_error(node, None, link_allowance(max_payload)) {
                Some(error) => (
                    Err(IpcFault::Topic(error)),
                    v.refuse(node, link_allowance(max_payload)).passed(node).drop_handle(node),
                ),
                None => {
                    let charged = v.charge_link(node, link_allowance(max_payload));
                    let (found, bound) = charged.subscribe(node, declaration, role);
                    match found {
                        Err(error) => (
                            Err(IpcFault::Topic(error)),
                            bound.release(lease).passed(node).drop_handle(node),
                        ),
                        Ok((stream, index)) => (Ok((stream, index, lease)), bound),
                    }
                },
            }
        },
    }
}

/// Binding an exporting link: its subscription and the charge, or the failure, and the
/// fabric afterwards. `allocated` says whether the machine has room for the payload
/// buffer.
#[verifier::opaque]
pub open spec fn bind_export<P>(
    v: FabricView<P>,
    node: nat,
    declaration: Declaration,
    role: SubscriptionRole,
    max_payload: nat,
    allocated: bool,
) -> (Result<(nat, nat, nat), IpcFault>, FabricView<P>) {
    let (found, claimed) = claim_export(v, node, declaration, role, max_payload);
    match found {
        Err(fault) => (Err(fault), claimed),
        Ok((stream, index, lease)) => {
            let cursor = claimed.streams[stream as int].subscribers[index as int]->0;
            if allocated {
                (Ok((stream, index, lease)), claimed.passed(node))
            } else {
                (
                    Err(IpcFault::Topic(TopicError::Capacity)),
                    claimed.detach(stream, index, node, cursor.ticket).release(lease).passed(
                        node,
                    ).drop_handle(node),
                )
            }
        },
    }
}

/// A link that cannot be claimed is not bound, whatever room there is.
pub proof fn lemma_unclaimed_export<P>(
    v: FabricView<P>,
    node: nat,
    declaration: Declaration,
    role: SubscriptionRole,
    max_payload: nat,
    allocated: bool,
)
    ensures
        claim_export(v, node, declaration, role, max_payload).0 is Err ==> bind_export(
            v,
            node,
            declaration,
            role,
            max_payload,
            allocated,
        ) == claim_export(v, node, declaration, role, max_payload),
{
    reveal(bind_export);
}

/// The exporting link that a binding gives.
pub open spec fn exported<P>(
    v: FabricView<P>,
    node: nat,
    stream: nat,
    index: nat,
    lease: nat,
    max_payload: nat,
) -> ExportView {
    let cursor = v.streams[stream as int].subscribers[index as int]->0;
    ExportView {
        node,
        stream,
        index,
        id: cursor.id,
        ticket: cursor.ticket,
        lease,
        limit: max_payload,
        outstanding: false,
        sequence: 0,
        control: Seq::empty(),
        again: false,
        stage: ExportStage::Ready,
    }
}

/// A link bound through the grant in slot `node`, or the failure to bind one, is what the
/// model says.
pub open spec fn export_bound<E: WireCodec, P: Carries<E::Payload>>(
    result: Result<UnixExport<E>, IpcError>,
    fabric: &DynamicFabric<P>,
    node: nat,
    max_payload: nat,
    outcome: (Result<(nat, nat, nat), IpcFault>, FabricView<P>),
) -> bool {
    &&& fabric@ == outcome.1
    &&& match outcome.0 {
        Ok((stream, index, lease)) => {
            &&& result matches Ok(link)
            &&& link.valid(fabric)
            &&& link@ == Some(exported(outcome.1, node, stream, index, lease, max_payload))
        },
        Err(fault) => result is Err && result->Err_0@ == fault,
    }
}

enum Stage {
    Ready,
    Receiving { pending: PendingReceive },
    Writing { header: [u8; 38], length: usize, written: usize },
}

struct ExportState<E: WireCodec> {
    grant: Grant,
    lease: Lease,
    receiver: DynamicReceiver<E>,
    buffer: Vec<u8>,
    outstanding: bool,
    sequence: u64,
    control: Vec<u8>,
    again: bool,
    stage: Stage,
}

impl<E: WireCodec> ExportState<E> {
    spec fn view(self) -> ExportView {
        ExportView {
            node: self.grant.node(),
            stream: self.receiver.stream(),
            index: self.receiver.index(),
            id: self.receiver.id(),
            ticket: self.receiver.ticket(),
            lease: self.lease.ticket(),
            limit: self.buffer@.len(),
            outstanding: self.outstanding,
            sequence: self.sequence,
            control: self.control@,
            again: self.again,
            stage: match self.stage {
                Stage::Ready => ExportStage::Ready,
                Stage::Receiving { pending } => ExportStage::Receiving(pending.ticket()),
                Stage::Writing { header, length, written } => ExportStage::Writing(
                    header@,
                    self.buffer@.subrange(0, length as int),
                    written as nat,
                ),
            },
        }
    }

    spec fn valid<P: Carries<E::Payload>>(self, fabric: &DynamicFabric<P>) -> bool {
        &&& self.lease.recorded(fabric@.ledger.table, Owner::Link)
        &&& self.lease.record(Owner::Link) == link_charge(self.grant.node(), self.buffer@.len())
        &&& self.receiver.valid(fabric)
        &&& self.receiver.node() == self.grant.node()
        &&& self.grant.node() != fabric.root()
        &&& fabric@.ledger.nodes[self.grant.node() as int].handles >= 2
        &&& self.control@.len() < CREDIT_BYTES
        &&& bound_fits(self.buffer@.len())
        &&& match self.stage {
            Stage::Ready => true,
            Stage::Receiving { pending } => pending.valid(fabric) && pending.stream()
                == self.receiver.stream(),
            Stage::Writing { header, length, written } => length <= self.buffer@.len() && written
                < HEADER_BYTES + length,
        }
    }

    /// Gives back all that the link held.
    fn end<P: Carries<E::Payload>>(self, fabric: &mut DynamicFabric<P>)
        requires
            old(fabric).wf(),
            self.valid(old(fabric)),
        ensures
            final(fabric).wf(),
            final(fabric).root() == old(fabric).root(),
            final(fabric)@ == self.view().ended(old(fabric)@),
            self.view().gone(old(fabric)@.ledger, final(fabric)@.ledger),
            self.view().beside(old(fabric)@, final(fabric)@, true),
    {
        let ExportState {
            grant,
            lease,
            receiver,
            buffer: _,
            outstanding: _,
            sequence: _,
            control: _,
            again: _,
            stage,
        } = self;
        assert(lasting(fabric@.ledger, lease.ticket()));
        match stage {
            Stage::Receiving { pending } => {
                pending.cancel(&receiver, fabric);
            },
            _ => {},
        }
        release_all(grant, lease, receiver, fabric);
    }

    /// Ends the link with a failure.
    fn fail<P: Carries<E::Payload>>(
        self,
        fabric: &mut DynamicFabric<P>,
        error: IpcError,
    ) -> (step: (
        LinkAction,
        Option<Self>,
    ))
        requires
            old(fabric).wf(),
            self.valid(old(fabric)),
        ensures
            final(fabric).wf(),
            final(fabric).root() == old(fabric).root(),
            step.0@ == LinkReply::Done(Some(error@)),
            step.1 is None,
            final(fabric)@ == self.view().ended(old(fabric)@),
            self.view().gone(old(fabric)@.ledger, final(fabric)@.ledger),
            self.view().beside(old(fabric)@, final(fabric)@, true),
    {
        self.end(fabric);
        (LinkAction::Done(Err(error)), None)
    }

    /// Returns until the link is woken.
    fn idle(self) -> (step: (LinkAction, Option<Self>))
        ensures
            step.0@ == (if self.again {
                LinkReply::Yield
            } else {
                LinkReply::Pending
            }),
            step.1 == Some(self),
    {
        if self.again {
            (LinkAction::Yield, Some(self))
        } else {
            (LinkAction::Pending, Some(self))
        }
    }

    /// Goes on with a publication that has been taken from the stream.
    fn framed<P: Carries<E::Payload>>(
        self,
        fabric: &mut DynamicFabric<P>,
        sequence: u64,
        value: &E::Payload,
    ) -> (result: (LinkAction, Option<Self>))
        requires
            old(fabric).wf(),
            self.valid(old(fabric)),
            self.stage is Ready,
        ensures
            final(fabric).wf(),
            final(fabric).root() == old(fabric).root(),
            result.1 matches Some(next) ==> next.valid(final(fabric)),
            result.1 is None ==> self.view().ends(final(fabric)@.ledger),
            self.view().beside(old(fabric)@, final(fabric)@, result.1 is None),
            result.1 matches Some(next) ==> self.view().renews(next.view(), old(fabric)@.ledger),
            exists|encoding: Encoding| #[trigger]
                encoded_as::<E>(*value, self.view().limit, encoding) && became(
                    result,
                    final(fabric)@,
                    self.view().framed(
                        old(fabric)@,
                        sequence,
                        declared::<E, P>(),
                        E::SCHEMA_REVISION,
                        encoding,
                    ),
                ),
            result.1 is None ==> fewer(old(fabric)@.ledger, final(fabric)@.ledger),
    {
        let ghost view = self.view();
        let length = E::encoded_len(value);
        let mut next = self;
        if length > next.buffer.len() {
            let limit = next.buffer.len();
            proof {
                let encoding = Encoding {
                    length,
                    result: Err(WireError::BufferTooSmall),
                    bytes: Seq::empty(),
                };
                assert(encoded_as::<E>(*value, view.limit, encoding));
            }
            return next.fail(fabric, IpcError::Oversized { length, limit });
        }
        let result = encode_into::<E>(value, &mut next.buffer, length);
        proof {
            let encoding = Encoding {
                length,
                result,
                bytes: next.buffer@.subrange(0, length as int),
            };
            assert(encoded_as::<E>(*value, view.limit, encoding));
            assert(next.view() == view);
        }
        match result {
            Err(error) => next.fail(fabric, IpcError::Wire(error)),
            Ok(encoded) => {
                if encoded != length {
                    return next.fail(fabric, IpcError::Wire(WireError::InvalidPayload));
                }
                match encode_header::<E>(sequence, length) {
                    Err(error) => next.fail(fabric, IpcError::Wire(error)),
                    Ok(header) => {
                        next.sequence = sequence;
                        next.outstanding = true;
                        next.stage = Stage::Writing { header, length, written: 0 };
                        (LinkAction::Write, Some(next))
                    },
                }
            },
        }
    }

    /// Goes on after an attempt to receive.
    fn attempted<P: Carries<E::Payload>>(
        self,
        fabric: &mut DynamicFabric<P>,
        step: ReceiveStep<E::Payload, P>,
        verdict: Ghost<ReceiveVerdict<P>>,
    ) -> (result: (LinkAction, Option<Self>))
        requires
            old(fabric).wf(),
            self.valid(old(fabric)),
            self.stage is Ready,
            step.is(verdict@, self.receiver.stream(), old(fabric)),
        ensures
            final(fabric).wf(),
            final(fabric).root() == old(fabric).root(),
            result.1 matches Some(next) ==> next.valid(final(fabric)),
            result.1 is None ==> self.view().ends(final(fabric)@.ledger),
            self.view().beside(old(fabric)@, final(fabric)@, result.1 is None),
            result.1 matches Some(next) ==> next.grant.node() == self.grant.node() && forall|t: nat| #[trigger]
                next.view().owns(t) ==> self.view().owns(t) || (step matches ReceiveStep::Wait(pending)
                    && t == pending.ticket()),
            exists|encoding: Encoding| #[trigger]
                explains::<E, P>(taken(verdict@), self.view().limit, encoding) && became(
                    result,
                    final(fabric)@,
                    self.view().attempted(
                        old(fabric)@,
                        verdict@,
                        declared::<E, P>(),
                        E::SCHEMA_REVISION,
                        encoding,
                    ),
                ),
            result.1 is None ==> fewer(old(fabric)@.ledger, final(fabric)@.ledger),
    {
        let ghost limit = self.view().limit;
        let ghost none = Encoding { length: 0, result: Ok(0), bytes: Seq::empty() };
        assert(taken(verdict@) is None ==> explains::<E, P>(taken(verdict@), limit, none));
        match step {
            ReceiveStep::Received(StreamItem::Data { sequence, value }) => {
                let result = self.framed(fabric, sequence, value.get());
                proof {
                    let encoding = choose|encoding: Encoding| #[trigger]
                        encoded_as::<E>(value.payload(), limit, encoding) && became(
                            result,
                            fabric@,
                            self.view().framed(
                                old(fabric)@,
                                sequence,
                                declared::<E, P>(),
                                E::SCHEMA_REVISION,
                                encoding,
                            ),
                        );
                    assert(explains::<E, P>(taken(verdict@), limit, encoding));
                }
                result
            },
            ReceiveStep::Received(StreamItem::Gap { from, to }) => self.fail(
                fabric,
                IpcError::Gap { from, to },
            ),
            ReceiveStep::Failed(error) => self.fail(fabric, IpcError::Receive(error)),
            ReceiveStep::Wait(pending) => {
                let mut next = self;
                next.stage = Stage::Receiving { pending };
                next.idle()
            },
        }
    }
}

impl<E: WireCodec> ExportState<E> {
    /// Goes on once the control socket has been looked at.
    fn advance<P: Carries<E::Payload>>(self, fabric: &mut DynamicFabric<P>) -> (result: (
        LinkAction,
        Option<Self>,
    ))
        requires
            old(fabric).wf(),
            self.valid(old(fabric)),
        ensures
            final(fabric).wf(),
            final(fabric).root() == old(fabric).root(),
            result.1 matches Some(next) ==> next.valid(final(fabric)),
            result.1 is None ==> self.view().ends(final(fabric)@.ledger),
            self.view().beside(old(fabric)@, final(fabric)@, result.1 is None),
            result.1 matches Some(next) ==> self.view().renews(next.view(), old(fabric)@.ledger),
            exists|encoding: Encoding| #[trigger]
                explains::<E, P>(
                    self.view().hands(old(fabric)@, ExportInput::ControlPending),
                    self.view().limit,
                    encoding,
                ) && became(
                    result,
                    final(fabric)@,
                    self.view().advance(
                        old(fabric)@,
                        declared::<E, P>(),
                        E::SCHEMA_REVISION,
                        encoding,
                    ),
                ),
    {
        let ghost view = self.view();
        let ghost before = fabric@;
        let ghost handed = view.hands(before, ExportInput::ControlPending);
        let ghost none = Encoding { length: 0, result: Ok(0), bytes: Seq::empty() };
        assert(handed is None ==> explains::<E, P>(handed, view.limit, none));
        assert(lasting(fabric@.ledger, self.lease.ticket()));
        let mut next = self;
        let mut stage = Stage::Ready;
        std::mem::swap(&mut stage, &mut next.stage);
        match stage {
            Stage::Ready => {
                if next.outstanding {
                    return next.idle();
                }
                let ghost verdict = before.recv_first(
                    view.stream,
                    view.index,
                    view.id,
                    view.node,
                ).0;
                let step = next.receiver.recv(fabric);
                assert(handed == taken(verdict));
                next.attempted(fabric, step, Ghost(verdict))
            },
            Stage::Receiving { pending } => {
                let ghost verdict = before.recv_again(
                    view.stream,
                    view.index,
                    view.id,
                    view.node,
                    pending.ticket(),
                ).0;
                let step = next.receiver.recv_again(fabric, pending);
                assert(handed == taken(verdict));
                assert(next.view() == view.at(ExportStage::Ready));
                next.attempted(fabric, step, Ghost(verdict))
            },
            Stage::Writing { header, length, written } => {
                next.stage = Stage::Writing { header, length, written };
                (LinkAction::Write, Some(next))
            },
        }
    }

    /// Goes on with bytes of the control socket.
    fn read<P: Carries<E::Payload>>(self, fabric: &mut DynamicFabric<P>, data: &[u8]) -> (result: (
        LinkAction,
        Option<Self>,
    ))
        requires
            old(fabric).wf(),
            self.valid(old(fabric)),
            self.view().expects(ExportInput::ControlRead(data@)),
        ensures
            final(fabric).wf(),
            final(fabric).root() == old(fabric).root(),
            result.1 matches Some(next) ==> next.valid(final(fabric)),
            result.1 is None ==> self.view().ends(final(fabric)@.ledger),
            self.view().beside(old(fabric)@, final(fabric)@, result.1 is None),
            result.1 matches Some(next) ==> self.view().renews(next.view(), old(fabric)@.ledger),
            exists|encoding: Encoding| #[trigger]
                explains::<E, P>(
                    self.view().hands(old(fabric)@, ExportInput::ControlRead(data@)),
                    self.view().limit,
                    encoding,
                ) && became(
                    result,
                    final(fabric)@,
                    self.view().step(
                        old(fabric)@,
                        ExportInput::ControlRead(data@),
                        declared::<E, P>(),
                        E::SCHEMA_REVISION,
                        encoding,
                    ),
                ),
    {
        let ghost view = self.view();
        let ghost handed = view.hands(fabric@, ExportInput::ControlRead(data@));
        let ghost none = Encoding { length: 0, result: Ok(0), bytes: Seq::empty() };
        assert(handed is None ==> explains::<E, P>(handed, view.limit, none));
        if data.len() == 0 {
            return self.fail(fabric, early_end_error());
        }
        let mut control: Vec<u8> = Vec::new();
        control.extend_from_slice(self.control.as_slice());
        control.extend_from_slice(data);
        assert(control@ =~= view.control + data@);
        if control.len() < CREDIT_BYTES {
            let wanted = CREDIT_BYTES - control.len();
            let mut next = self;
            next.control = control;
            (LinkAction::PollControl(wanted), Some(next))
        } else if self.outstanding && check_credit(control.as_slice(), self.sequence) {
            let mut next = self;
            next.outstanding = false;
            next.control = Vec::new();
            next.again = true;
            assert(next.control@ =~= Seq::empty());
            assert(next.view() == view.credited());
            assert(next.view().hands(fabric@, ExportInput::ControlPending) == handed);
            next.advance(fabric)
        } else {
            self.fail(fabric, IpcError::Protocol)
        }
    }

    /// Goes on when bytes of a frame have been written.
    fn wrote<P: Carries<E::Payload>>(
        self,
        fabric: &mut DynamicFabric<P>,
        count: usize,
    ) -> (result: (
        LinkAction,
        Option<Self>,
    ))
        requires
            old(fabric).wf(),
            self.valid(old(fabric)),
            self.view().expects(ExportInput::DataWritten(count as nat)),
        ensures
            final(fabric).wf(),
            final(fabric).root() == old(fabric).root(),
            result.1 matches Some(next) ==> next.valid(final(fabric)),
            result.1 is None ==> self.view().ends(final(fabric)@.ledger),
            self.view().beside(old(fabric)@, final(fabric)@, result.1 is None),
            result.1 matches Some(next) ==> self.view().renews(next.view(), old(fabric)@.ledger),
            forall|encoding: Encoding|
                became(
                    result,
                    final(fabric)@,
                    #[trigger] self.view().step(
                        old(fabric)@,
                        ExportInput::DataWritten(count as nat),
                        declared::<E, P>(),
                        E::SCHEMA_REVISION,
                        encoding,
                    ),
                ),
    {
        if count == 0 {
            return self.fail(fabric, write_refused_error());
        }
        let mut next = self;
        let mut stage = Stage::Ready;
        std::mem::swap(&mut stage, &mut next.stage);
        match stage {
            Stage::Writing { header, length, written } => {
                let total = HEADER_BYTES + length;
                if written + count < total {
                    next.stage = Stage::Writing { header, length, written: written + count };
                    (LinkAction::Write, Some(next))
                } else {
                    (LinkAction::Yield, Some(next))
                }
            },
            other => {
                next.stage = other;
                (LinkAction::Pending, Some(next))
            },
        }
    }

    /// Does what an event asks for.
    fn step<P: Carries<E::Payload>>(
        self,
        fabric: &mut DynamicFabric<P>,
        event: ExportEvent<'_>,
    ) -> (result: (
        LinkAction,
        Option<Self>,
    ))
        requires
            old(fabric).wf(),
            self.valid(old(fabric)),
            self.view().expects(event@),
        ensures
            final(fabric).wf(),
            final(fabric).root() == old(fabric).root(),
            result.1 matches Some(next) ==> next.valid(final(fabric)),
            result.1 is None ==> self.view().ends(final(fabric)@.ledger),
            self.view().beside(old(fabric)@, final(fabric)@, result.1 is None),
            result.1 matches Some(next) ==> self.view().renews(next.view(), old(fabric)@.ledger),
            exists|encoding: Encoding| #[trigger]
                explains::<E, P>(
                    self.view().hands(old(fabric)@, event@),
                    self.view().limit,
                    encoding,
                ) && became(
                    result,
                    final(fabric)@,
                    self.view().step(
                        old(fabric)@,
                        event@,
                        declared::<E, P>(),
                        E::SCHEMA_REVISION,
                        encoding,
                    ),
                ),
    {
        let ghost handed = self.view().hands(fabric@, event@);
        let ghost none = Encoding { length: 0, result: Ok(0), bytes: Seq::empty() };
        assert(handed is None ==> explains::<E, P>(handed, self.view().limit, none));
        match event {
            ExportEvent::Polled => {
                if self.grant.is_revoked(fabric) {
                    self.fail(fabric, IpcError::Revoked)
                } else {
                    let wanted = CREDIT_BYTES - self.control.len();
                    let mut next = self;
                    next.again = false;
                    (LinkAction::PollControl(wanted), Some(next))
                }
            },
            ExportEvent::ControlPending => self.advance(fabric),
            ExportEvent::ControlRead(data) => self.read(fabric, data),
            ExportEvent::ControlFailed(failure) => self.fail(fabric, IpcError::Io(failure)),
            ExportEvent::DataWritten(count) => self.wrote(fabric, count),
            ExportEvent::DataPending => self.idle(),
            ExportEvent::DataFailed(failure) => self.fail(fabric, IpcError::Io(failure)),
        }
    }
}

/// Caller-driven export of one stream.
///
/// The application owns the two sockets, tells the link what they did, and does what the
/// link asks for. One frame may await remote admission. An observer cannot backpressure
/// the source and ends on a visible gap. Local publication success never implies remote
/// delivery, even when this link is required.
#[must_use]
pub struct UnixExport<E: WireCodec> {
    state: Option<ExportState<E>>,
}

impl<E: WireCodec> View for UnixExport<E> {
    type V = Option<ExportView>;

    closed spec fn view(&self) -> Option<ExportView> {
        match self.state {
            Some(state) => Some(state.view()),
            None => None,
        }
    }
}

impl<E: WireCodec> UnixExport<E> {
    /// The link belongs to this fabric.
    pub closed spec fn valid<P: Carries<E::Payload>>(&self, fabric: &DynamicFabric<P>) -> bool {
        self.state matches Some(state) ==> state.valid(fabric)
    }

    /// A link stays valid while its stream, its charges and its grant stay.
    pub proof fn lemma_still_valid<P: Carries<E::Payload>>(
        &self,
        before: DynamicFabric<P>,
        after: DynamicFabric<P>,
    )
        requires
            self.valid(&before),
            self@ matches Some(link) ==> {
                &&& link.node < after@.ledger.nodes.len()
                &&& after@.ledger.nodes[link.node as int].handles >= 2
                &&& forall|t: nat| #[trigger]
                    link.owns(t) ==> stays(before@.ledger, after@.ledger, t)
            },
            same_members(before@, after@),
            after.root() == before.root(),
        ensures
            self.valid(&after),
    {
        if self.state is Some {
            let state = self.state->0;
            let link = state.view();
            assert(link.owns(state.lease.ticket()));
            assert(link.owns(state.receiver.ticket()));
            state.receiver.lemma_still_valid(before, after);
            match state.stage {
                Stage::Receiving { pending } => {
                    assert(link.owns(pending.ticket()));
                    pending.lemma_still_valid(before, after);
                },
                _ => {},
            }
        }
    }

    /// What a running link holds is outstanding, its own charge with what a link takes, and
    /// its grant has two handles for it.
    pub proof fn lemma_holds<P: Carries<E::Payload>>(&self, fabric: DynamicFabric<P>)
        requires
            self.valid(&fabric),
        ensures
            self@ matches Some(link) ==> {
                &&& forall|t: nat| #[trigger] link.owns(t) ==> lasting(fabric@.ledger, t)
                &&& fabric.wf() ==> link.held(fabric@)
                &&& fabric@.ledger.record(link.lease) == link_charge(link.node, link.limit)
                &&& bound_fits(link.limit)
                &&& fabric@.ledger.record(link.ticket).node == link.node
                &&& fabric@.ledger.record(link.ticket).usage == one_subscription().widened()
                &&& link.lease != link.ticket
                &&& link.node < fabric@.ledger.nodes.len()
                &&& fabric@.ledger.nodes[link.node as int].handles >= 2
            },
    {
        if self.state is Some {
            let state = self.state->0;
            assert(fabric@.ledger.outstanding(state.lease.ticket()));
        }
    }

    /// Claims what the link needs but its payload buffer.
    fn claim<P: Carries<E::Payload>>(
        fabric: &mut DynamicFabric<P>,
        grant: Grant,
        role: SubscriptionRole,
        max_payload: usize,
    ) -> (result: Result<(Grant, Lease, DynamicReceiver<E>), IpcError>)
        requires
            old(fabric).wf(),
            old(fabric).knows(&grant),
            grant.node() != old(fabric).root(),
            old(fabric)@.ledger.nodes[grant.node() as int].handles < usize::MAX,
        ensures
            final(fabric).wf(),
            final(fabric).root() == old(fabric).root(),
            ({
                let (found, after) = claim_export(
                    old(fabric)@,
                    grant.node(),
                    declared::<E, P>(),
                    role,
                    max_payload as nat,
                );
                &&& final(fabric)@ == after
                &&& match found {
                    Ok((stream, index, ticket)) => {
                        let cursor = after.streams[stream as int].subscribers[index as int]->0;
                        &&& result matches Ok((kept, lease, receiver))
                        &&& kept == grant
                        &&& lease.ticket() == ticket
                        &&& receiver.stream() == stream
                        &&& receiver.index() == index
                        &&& receiver.id() == cursor.id
                        &&& receiver.ticket() == cursor.ticket
                    },
                    Err(fault) => result is Err && result->Err_0@ == fault,
                }
            }),
            result matches Ok((_, lease, receiver)) ==> {
                &&& lease.recorded(final(fabric)@.ledger.table, Owner::Link)
                &&& lease.record(Owner::Link) == link_charge(grant.node(), max_payload as nat)
                &&& receiver.valid(final(fabric))
                &&& receiver.node() == grant.node()
                &&& receiver.ticket() != lease.ticket()
                &&& bound_fits(max_payload as nat)
            },
            settled(
                old(fabric)@.ledger,
                final(fabric)@.ledger,
                grant.node(),
                if result is Ok {
                    1
                } else {
                    -1
                },
            ),
            result is Err ==> fewer(old(fabric)@.ledger, final(fabric)@.ledger),
            result matches Ok((_, lease, receiver)) ==> forall|t: nat|
                t != lease.ticket() && t != receiver.ticket()
                    && #[trigger] final(fabric)@.ledger.outstanding(t) ==> old(
                    fabric,
                )@.ledger.outstanding(t) && final(fabric)@.ledger.record(t) == old(
                    fabric,
                )@.ledger.record(t),
    {
        proof {
            reveal(claim_export);
        }
        let rights = match role {
            SubscriptionRole::Observer => Rights::observe(),
            SubscriptionRole::Required => {
                assert(2u8 | 4u8 == 6u8) by (bit_vector);
                Rights::observe().union(Rights::required())
            },
        };
        match fabric.ledger().can_enter(&grant, E::ID, rights) {
            Ok(_) => {},
            Err(error) => {
                grant.release(fabric);
                return Err(IpcError::Topic(error));
            },
        }
        let limits = match link_limits(max_payload) {
            Ok(limits) => limits,
            Err(error) => {
                fabric.pass(&grant);
                grant.release(fabric);
                return Err(error);
            },
        };
        let lease = match fabric.charge_link(&grant, limits) {
            Ok(lease) => lease,
            Err(error) => {
                fabric.pass(&grant);
                grant.release(fabric);
                return Err(IpcError::Topic(error));
            },
        };
        assert(lasting(fabric@.ledger, lease.ticket()));
        match grant.subscribe::<E, P>(fabric, role) {
            Ok(receiver) => {
                assert(lease.ticket() != receiver.ticket());
                Ok((grant, lease, receiver))
            },
            Err(error) => {
                let ghost bound = fabric@;
                fabric.put_back(lease, Ghost(Owner::Link));
                proof {
                    lemma_kept_steady(bound.ledger, fabric@.ledger);
                }
                fabric.pass(&grant);
                grant.release(fabric);
                Err(IpcError::Topic(error))
            },
        }
    }

    /// Makes a link of what it has claimed and its payload buffer, or gives it all back
    /// when there is no buffer.
    fn equip<P: Carries<E::Payload>>(
        fabric: &mut DynamicFabric<P>,
        claimed: (Grant, Lease, DynamicReceiver<E>),
        buffer: Result<Vec<u8>, IpcError>,
    ) -> (result: Result<UnixExport<E>, IpcError>)
        requires
            old(fabric).wf(),
            claimed.0.node() != old(fabric).root(),
            claimed.1.recorded(old(fabric)@.ledger.table, Owner::Link),
            claimed.2.valid(old(fabric)),
            claimed.2.node() == claimed.0.node(),
            claimed.2.ticket() != claimed.1.ticket(),
            old(fabric)@.ledger.nodes[claimed.0.node() as int].handles >= 2,
            buffer matches Ok(bytes) ==> bound_fits(bytes@.len()) && claimed.1.record(Owner::Link)
                == link_charge(claimed.0.node(), bytes@.len()),
        ensures
            final(fabric).wf(),
            final(fabric).root() == old(fabric).root(),
            ({
                let (grant, lease, receiver) = claimed;
                match buffer {
                    Ok(bytes) => {
                        &&& final(fabric)@ == old(fabric)@.passed(grant.node())
                        &&& result matches Ok(link)
                        &&& link.valid(final(fabric))
                        &&& link@ == Some(
                            ExportView {
                                node: grant.node(),
                                stream: receiver.stream(),
                                index: receiver.index(),
                                id: receiver.id(),
                                ticket: receiver.ticket(),
                                lease: lease.ticket(),
                                limit: bytes@.len(),
                                outstanding: false,
                                sequence: 0,
                                control: Seq::empty(),
                                again: false,
                                stage: ExportStage::Ready,
                            },
                        )
                    },
                    Err(error) => {
                        &&& final(fabric)@ == old(fabric)@.detach(
                            receiver.stream(),
                            receiver.index(),
                            grant.node(),
                            receiver.ticket(),
                        ).release(lease.ticket()).passed(grant.node()).drop_handle(grant.node())
                        &&& result == Err::<UnixExport<E>, IpcError>(error)
                    },
                }
            }),
            settled(
                old(fabric)@.ledger,
                final(fabric)@.ledger,
                claimed.0.node(),
                if result is Ok {
                    0
                } else {
                    -2
                },
            ),
            fewer(old(fabric)@.ledger, final(fabric)@.ledger),
            result is Err ==> !final(fabric)@.ledger.outstanding(claimed.1.ticket())
                && !final(fabric)@.ledger.outstanding(claimed.2.ticket()),
    {
        let (grant, lease, receiver) = claimed;
        let ghost open = *fabric;
        assert(lasting(open@.ledger, lease.ticket()));
        assert(lasting(open@.ledger, receiver.ticket()));
        match buffer {
            Ok(buffer) => {
                fabric.pass(&grant);
                proof {
                    receiver.lemma_still_valid(open, *fabric);
                }
                let state = ExportState {
                    grant,
                    lease,
                    receiver,
                    buffer,
                    outstanding: false,
                    sequence: 0,
                    control: Vec::new(),
                    again: false,
                    stage: Stage::Ready,
                };
                assert(state.control@ =~= Seq::empty());
                Ok(UnixExport { state: Some(state) })
            },
            Err(error) => {
                receiver.detach(fabric);
                let ghost left = fabric@;
                fabric.put_back(lease, Ghost(Owner::Link));
                proof {
                    lemma_kept_steady(left.ledger, fabric@.ledger);
                }
                fabric.pass(&grant);
                grant.release(fabric);
                Err(error)
            },
        }
    }

    /// Binds an export to the stream that the grant names, from its current tail on.
    ///
    /// # Errors
    ///
    /// Returns [`IpcError::Topic`] when the grant is revoked, lacks the selected receive
    /// rights or resource allowance, or cannot bind the event's stream. Payload bounds
    /// exceeding the wire's `u32` length range are rejected. Failure to reserve the payload
    /// buffer returns [`TopicError::Capacity`]. A failure leaves no reservation behind.
    pub fn bind<P: Carries<E::Payload>>(
        fabric: &mut DynamicFabric<P>,
        grant: Grant,
        role: SubscriptionRole,
        max_payload: usize,
    ) -> (result: Result<UnixExport<E>, IpcError>)
        requires
            old(fabric).wf(),
            old(fabric).knows(&grant),
            grant.node() != old(fabric).root(),
            old(fabric)@.ledger.nodes[grant.node() as int].handles < usize::MAX,
        ensures
            final(fabric).wf(),
            final(fabric).root() == old(fabric).root(),
            ({
                let v = old(fabric)@;
                let d = declared::<E, P>();
                let m = max_payload as nat;
                if claim_export(v, grant.node(), d, role, m).0 is Err {
                    export_bound(
                        result,
                        final(fabric),
                        grant.node(),
                        m,
                        claim_export(v, grant.node(), d, role, m),
                    )
                } else {
                    exists|room: Reservation| #[trigger]
                        room.is_for(m) && export_bound(
                            result,
                            final(fabric),
                            grant.node(),
                            m,
                            bind_export(v, grant.node(), d, role, m, room.granted()),
                        )
                }
            }),
            settled(
                old(fabric)@.ledger,
                final(fabric)@.ledger,
                grant.node(),
                if result is Ok {
                    1
                } else {
                    -1
                },
            ),
            result is Err ==> fewer(old(fabric)@.ledger, final(fabric)@.ledger),
            result matches Ok(link) ==> forall|t: nat|
                t != link@->0.lease && t != link@->0.ticket
                    && #[trigger] final(fabric)@.ledger.outstanding(t) ==> old(
                    fabric,
                )@.ledger.outstanding(t) && final(fabric)@.ledger.record(t) == old(
                    fabric,
                )@.ledger.record(t),
    {
        proof {
            reveal(bind_export);
        }
        match Self::claim(fabric, grant, role, max_payload) {
            Ok(claimed) => Self::equip(fabric, claimed, payload_buffer(max_payload)),
            Err(error) => Err(error),
        }
    }

    /// Binds an export as [`Self::bind`] does, with this outcome of the request for its
    /// payload buffer.
    ///
    /// # Errors
    ///
    /// Fails as [`Self::bind`] does, and returns [`TopicError::Capacity`] when there is no
    /// buffer.
    pub fn bind_with<P: Carries<E::Payload>>(
        fabric: &mut DynamicFabric<P>,
        grant: Grant,
        role: SubscriptionRole,
        max_payload: usize,
        buffer: Option<Vec<u8>>,
    ) -> (result: Result<UnixExport<E>, IpcError>)
        requires
            old(fabric).wf(),
            old(fabric).knows(&grant),
            grant.node() != old(fabric).root(),
            old(fabric)@.ledger.nodes[grant.node() as int].handles < usize::MAX,
            buffer matches Some(bytes) ==> bytes@.len() == 0,
        ensures
            final(fabric).wf(),
            final(fabric).root() == old(fabric).root(),
            export_bound(
                result,
                final(fabric),
                grant.node(),
                max_payload as nat,
                bind_export(
                    old(fabric)@,
                    grant.node(),
                    declared::<E, P>(),
                    role,
                    max_payload as nat,
                    buffer is Some,
                ),
            ),
            settled(
                old(fabric)@.ledger,
                final(fabric)@.ledger,
                grant.node(),
                if result is Ok {
                    1
                } else {
                    -1
                },
            ),
            result is Err ==> fewer(old(fabric)@.ledger, final(fabric)@.ledger),
            result matches Ok(link) ==> forall|t: nat|
                t != link@->0.lease && t != link@->0.ticket
                    && #[trigger] final(fabric)@.ledger.outstanding(t) ==> old(
                    fabric,
                )@.ledger.outstanding(t) && final(fabric)@.ledger.record(t) == old(
                    fabric,
                )@.ledger.record(t),
    {
        proof {
            reveal(bind_export);
        }
        match Self::claim(fabric, grant, role, max_payload) {
            Ok(claimed) => Self::equip(fabric, claimed, filled(buffer, max_payload)),
            Err(error) => Err(error),
        }
    }

    /// Tells the link what happened, and what to do next. After [`LinkAction::Done`] the
    /// link holds nothing any more, and every further event is answered with success.
    pub fn step<P: Carries<E::Payload>>(
        &mut self,
        fabric: &mut DynamicFabric<P>,
        event: ExportEvent<'_>,
    ) -> (action:
        LinkAction)
        requires
            old(fabric).wf(),
            old(self).valid(old(fabric)),
            old(self)@ matches Some(link) ==> link.expects(event@),
        ensures
            final(fabric).wf(),
            final(fabric).root() == old(fabric).root(),
            final(self).valid(final(fabric)),
            match old(self)@ {
                None => {
                    &&& action@ == LinkReply::Done(None)
                    &&& final(self)@ is None
                    &&& final(fabric)@ == old(fabric)@
                },
                Some(link) => exists|encoding: Encoding| #[trigger]
                    explains::<E, P>(
                        link.hands(old(fabric)@, event@),
                        link.limit,
                        encoding,
                    ) && (action@, final(self)@, final(fabric)@) == link.step(
                        old(fabric)@,
                        event@,
                        declared::<E, P>(),
                        E::SCHEMA_REVISION,
                        encoding,
                    ),
            },
            old(self)@ is Some && final(self)@ is None ==> old(self)@->0.ends(
                final(fabric)@.ledger,
            ),
            old(self)@ matches Some(link) ==> link.beside(
                old(fabric)@,
                final(fabric)@,
                final(self)@ is None,
            ),
            old(self)@ is Some && final(self)@ is Some ==> old(self)@->0.renews(
                final(self)@->0,
                old(fabric)@.ledger,
            ),
    {
        match self.state.take() {
            None => LinkAction::Done(Ok(())),
            Some(state) => {
                let (action, next) = state.step(fabric, event);
                self.state = next;
                action
            },
        }
    }

    /// The bytes to write next: the rest of the header, or else of the payload.
    pub fn outgoing<'a, P: Carries<E::Payload>>(
        &'a self,
        fabric: &DynamicFabric<P>,
    ) -> (bytes: &'a [u8])
        requires
            self.valid(fabric),
        ensures
            bytes@ == match self@ {
                Some(link) => link.outgoing(),
                None => Seq::empty(),
            },
    {
        match &self.state {
            Some(state) => match &state.stage {
                Stage::Writing { header, length, written } => {
                    if *written < HEADER_BYTES {
                        vstd::slice::slice_subrange(header, *written, HEADER_BYTES)
                    } else {
                        let from = *written - HEADER_BYTES;
                        let bytes = vstd::slice::slice_subrange(
                            state.buffer.as_slice(),
                            from,
                            *length,
                        );
                        assert(bytes@ =~= state.buffer@.subrange(0, *length as int).subrange(
                            from as int,
                            *length as int,
                        ));
                        bytes
                    }
                },
                _ => {
                    let none: &'a [u8] = &[];
                    assert(none@ =~= Seq::empty());
                    none
                },
            },
            None => {
                let none: &'a [u8] = &[];
                assert(none@ =~= Seq::empty());
                none
            },
        }
    }

    /// Tests whether the link has not ended yet.
    pub fn is_running(&self) -> (running: bool)
        ensures
            running == (self@ is Some),
    {
        self.state.is_some()
    }

    /// Tests whether the link waits for a publication. Only then does a change of the
    /// stream let the link go on.
    pub fn awaits_stream(&self) -> (waiting: bool)
        ensures
            waiting == (self@ matches Some(link) && link.stage is Receiving),
    {
        match &self.state {
            Some(state) => matches!(state.stage, Stage::Receiving { .. }),
            None => false,
        }
    }

    /// Ends the link before it is done.
    pub fn cancel<P: Carries<E::Payload>>(self, fabric: &mut DynamicFabric<P>)
        requires
            old(fabric).wf(),
            self.valid(old(fabric)),
        ensures
            final(fabric).wf(),
            final(fabric).root() == old(fabric).root(),
            final(fabric)@ == match self@ {
                Some(link) => link.ended(old(fabric)@),
                None => old(fabric)@,
            },
            self@ matches Some(link) ==> link.gone(old(fabric)@.ledger, final(fabric)@.ledger)
                && link.beside(old(fabric)@, final(fabric)@, true),
    {
        match self.state {
            Some(state) => state.end(fabric),
            None => {},
        }
    }
}

/// The payload of a verdict, if it holds one.
pub open spec fn taken<P>(verdict: ReceiveVerdict<P>) -> Option<P> {
    match verdict {
        ReceiveVerdict::Received(StreamItem::Data { sequence, value }) => Some(value),
        _ => None,
    }
}

/// Encodes a payload into the first `length` bytes of a buffer.
fn encode_into<E: WireCodec>(value: &E::Payload, buffer: &mut Vec<u8>, length: usize) -> (result:
    Result<usize, WireError>)
    requires
        length <= old(buffer)@.len(),
    ensures
        final(buffer)@.len() == old(buffer)@.len(),
        E::encodes(*value, final(buffer)@.subrange(0, length as int), result),
{
    let (part, _) = buffer.as_mut_slice().split_at_mut(length);
    let result = E::encode(value, part);
    assert(buffer@.subrange(0, length as int) =~= part@);
    result
}

/// The link and the fabric are what the model says.
spec fn became<E: WireCodec, P: Carries<E::Payload>>(
    result: (LinkAction, Option<ExportState<E>>),
    after: FabricView<P>,
    outcome: ExportOutcome<P>,
) -> bool {
    &&& result.0@ == outcome.0
    &&& after == outcome.2
    &&& match outcome.1 {
        Some(view) => result.1 is Some && result.1->0.view() == view,
        None => result.1 is None,
    }
}

/// Gives back a subscription, a charge and a handle.
fn release_all<E: EventSpec, P: Carries<E::Payload>>(
    grant: Grant,
    lease: Lease,
    receiver: DynamicReceiver<E>,
    fabric: &mut DynamicFabric<P>,
)
    requires
        old(fabric).wf(),
        lease.recorded(old(fabric)@.ledger.table, Owner::Link),
        receiver.valid(old(fabric)),
        receiver.node() == grant.node(),
        grant.node() != old(fabric).root(),
        old(fabric)@.ledger.nodes[grant.node() as int].handles >= 2,
    ensures
        final(fabric).wf(),
        final(fabric).root() == old(fabric).root(),
        final(fabric)@ == old(fabric)@.detach(
            receiver.stream(),
            receiver.index(),
            grant.node(),
            receiver.ticket(),
        ).release(lease.ticket()).drop_handle(grant.node()),
        fewer(old(fabric)@.ledger, final(fabric)@.ledger),
        !final(fabric)@.ledger.outstanding(lease.ticket()),
        !final(fabric)@.ledger.outstanding(receiver.ticket()),
        same_declared(old(fabric)@, final(fabric)@),
        forall|t: nat|
            t != lease.ticket() && t != receiver.ticket() && #[trigger] lasting(
                old(fabric)@.ledger,
                t,
            ) ==> stays(old(fabric)@.ledger, final(fabric)@.ledger, t) && lasting(
                final(fabric)@.ledger,
                t,
            ),
        settled(old(fabric)@.ledger, final(fabric)@.ledger, grant.node(), -2),
{
    assert(lasting(fabric@.ledger, lease.ticket()));
    assert(lease.ticket() != receiver.ticket());
    receiver.detach(fabric);
    let ghost middle = fabric@;
    fabric.put_back(lease, Ghost(Owner::Link));
    proof {
        lemma_kept_steady(middle.ledger, fabric@.ledger);
    }
    grant.release(fabric);
}

} // verus!
