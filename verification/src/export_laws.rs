//! What an exporting link makes of each event, by what its stream and its sockets hold.
use crate::error::{CloseReason, ReceiveError};
use crate::export_schedule::{possible, turned, ExportRun, ExportTurn};
use crate::fabric::declared;
use crate::fabric_model::{observe_right, Declaration, FabricView};
use crate::grant::Rights;
use crate::ipc::{header_bytes, law_credit, IoKind, IpcFault, LinkReply};
use crate::payload::Carries;
use crate::unix_export::{Encoding, ExportInput, ExportStage, ExportView};
use crate::wire::{WireCodec, WireError};
use vstd::prelude::*;

verus! {

/// The event makes the link look for its next publication: its stage is between two frames,
/// and either no credit is outstanding and the control socket has nothing, or the credit comes
/// for the frame that went out last.
pub open spec fn looks(link: ExportView, input: ExportInput) -> bool {
    &&& !(link.stage is Writing)
    &&& match input {
        ExportInput::ControlPending => link.stage is Receiving || !link.outstanding,
        ExportInput::ControlRead(data) => {
            &&& link.outstanding
            &&& data.len() > 0
            &&& link.control + data == crate::ipc::credit_bytes(link.sequence)
        },
        _ => false,
    }
}

/// The grant of the link is in force and lets it observe the event of its stream, and it has
/// fewer operations under way than can be counted.
pub open spec fn may_observe<P>(link: ExportView, v: FabricView<P>) -> bool {
    let at = v.ledger.nodes[link.node as int];
    let event = v.streams[link.stream as int].declaration.event;
    &&& !at.revoked
    &&& at.active < usize::MAX / 2
    &&& at.unrestricted || exists|p: int|
        0 <= p < at.allowances.len() && #[trigger] at.allowances[p].permission.event == event
            && at.allowances[p].permission.rights.bits() & 2 == 2
}

/// The subscription of the link is in force in an open stream, and has `next` still to receive.
pub open spec fn subscribed_at<P>(link: ExportView, v: FabricView<P>, next: u64) -> bool {
    let st = v.streams[link.stream as int];
    &&& !st.closed
    &&& link.index < st.subscribers.len()
    &&& st.subscribers[link.index as int] is Some
    &&& st.subscribers[link.index as int]->0.id == link.id
    &&& st.subscribers[link.index as int]->0.next == next
}

proof fn lemma_observes<P>(link: ExportView, v: FabricView<P>)
    requires
        may_observe(link, v),
    ensures
        v.ledger.enter_error(
            link.node,
            v.streams[link.stream as int].declaration.event,
            observe_right(),
        ) is None,
{
    broadcast use Rights::lemma_of_bits;

    let at = v.ledger.nodes[link.node as int];
    let event = v.streams[link.stream as int].declaration.event;
    assert(at.permits(event, observe_right()));
}

/// Whatever the state of its credits, a link that looks for its next publication and finds it
/// lost ends in that step, and says exactly which publications are lost.
pub proof fn law_export_gap<P>(
    link: ExportView,
    v: FabricView<P>,
    input: ExportInput,
    declaration: Declaration,
    revision: u32,
    encoding: Encoding,
    next: u64,
)
    requires
        link.held(v),
        looks(link, input),
        may_observe(link, v),
        subscribed_at(link, v, next),
        next < v.streams[link.stream as int].tail - v.streams[link.stream as int].entries.len(),
    ensures
        ({
            let st = v.streams[link.stream as int];
            let step = link.step(v, input, declaration, revision, encoding);
            &&& step.0 == LinkReply::Done(
                Some(IpcFault::Gap(next, (st.tail - st.entries.len()) as u64)),
            )
            &&& step.1 is None
            &&& link.hands(v, input) is None
        }),
{
    assert(v.stream_sound(link.stream));
    lemma_observes(link, v);
    lemma_head(v, link.stream);
    law_credit(link.sequence, link.sequence);
}

proof fn lemma_head<P>(v: FabricView<P>, s: nat)
    requires
        v.wf(),
        s < v.streams.len(),
    ensures
        v.streams[s as int].head() == v.streams[s as int].tail - v.streams[s as int].entries.len(),
{
    assert(v.stream_sound(s));
    let st = v.streams[s as int];
    if st.entries.len() > 0 {
        assert(st.entries[0].sequence == st.tail - st.entries.len());
    }
}

/// A link that looks for its next publication and finds it retained hands exactly that to the
/// codec, and writes it under its own sequence, unless the codec fails or the payload is over
/// the bound of the link; then the link ends and says so.
pub proof fn law_export_takes<P>(
    link: ExportView,
    v: FabricView<P>,
    input: ExportInput,
    declaration: Declaration,
    revision: u32,
    encoding: Encoding,
    next: u64,
)
    requires
        link.held(v),
        looks(link, input),
        may_observe(link, v),
        subscribed_at(link, v, next),
        v.streams[link.stream as int].tail - v.streams[link.stream as int].entries.len() <= next
            < v.streams[link.stream as int].tail,
    ensures
        ({
            let st = v.streams[link.stream as int];
            let head = st.tail - st.entries.len();
            let step = link.step(v, input, declaration, revision, encoding);
            &&& link.hands(v, input) == Some(st.entries[next - head].value)
            &&& st.entries[next - head].sequence == next
            &&& if encoding.length > link.limit {
                &&& step.0 == LinkReply::Done(
                    Some(IpcFault::Oversized(encoding.length as nat, link.limit)),
                )
                &&& step.1 is None
            } else if encoding.result is Err {
                &&& step.0 == LinkReply::Done(Some(IpcFault::Wire(encoding.result->Err_0)))
                &&& step.1 is None
            } else if encoding.result->Ok_0 != encoding.length {
                &&& step.0 == LinkReply::Done(Some(IpcFault::Wire(WireError::InvalidPayload)))
                &&& step.1 is None
            } else {
                let now = step.1->0;
                &&& step.0 is Write
                &&& step.1 is Some
                &&& now.outstanding
                &&& now.sequence == next
                &&& now.control == if input is ControlRead {
                    Seq::<u8>::empty()
                } else {
                    link.control
                }
                &&& now.again == (link.again || input is ControlRead)
                &&& now.stage == ExportStage::Writing(
                    header_bytes(
                        declaration.event,
                        declaration.wire_major,
                        revision,
                        next,
                        encoding.length as nat,
                    ),
                    encoding.bytes,
                    0,
                )
                &&& now.node == link.node
                &&& now.stream == link.stream
                &&& now.index == link.index
                &&& now.id == link.id
                &&& now.ticket == link.ticket
                &&& now.lease == link.lease
                &&& now.limit == link.limit
            }
        }),
{
    let st = v.streams[link.stream as int];
    assert(v.stream_sound(link.stream));
    lemma_observes(link, v);
    lemma_head(v, link.stream);
    law_credit(link.sequence, link.sequence);
    assert(st.entries[next - st.head()].sequence == next);
}

/// A link that looks for its next publication and is up to date hands nothing to the codec and
/// writes nothing: it waits, or ends because there is no waiter left for it.
pub proof fn law_export_up_to_date<P>(
    link: ExportView,
    v: FabricView<P>,
    input: ExportInput,
    declaration: Declaration,
    revision: u32,
    encoding: Encoding,
)
    requires
        link.held(v),
        looks(link, input),
        may_observe(link, v),
        subscribed_at(link, v, v.streams[link.stream as int].tail),
        link.stage is Receiving,
    ensures
        ({
            let step = link.step(v, input, declaration, revision, encoding);
            &&& link.hands(v, input) is None
            &&& step.1 matches Some(now)
            &&& now.stage == link.stage
            &&& step.0 == if link.again || input is ControlRead {
                LinkReply::Yield
            } else {
                LinkReply::Pending
            }
        }),
{
    assert(v.stream_sound(link.stream));
    lemma_observes(link, v);
    lemma_head(v, link.stream);
    law_credit(link.sequence, link.sequence);
}

/// A link that looks for its next publication in a closed stream, without its subscription, or
/// after its grant was revoked, ends and says so.
pub proof fn law_export_closed<P>(
    link: ExportView,
    v: FabricView<P>,
    input: ExportInput,
    declaration: Declaration,
    revision: u32,
    encoding: Encoding,
)
    requires
        link.held(v),
        looks(link, input),
    ensures
        ({
            let st = v.streams[link.stream as int];
            let step = link.step(v, input, declaration, revision, encoding);
            &&& v.ledger.nodes[link.node as int].revoked ==> step.1 is None && step.0
                == LinkReply::Done(
                Some(IpcFault::Receive(ReceiveError::Closed(CloseReason::Revoked))),
            )
            &&& may_observe(link, v) && (st.closed || st.subscribers[link.index as int] is None
                || st.subscribers[link.index as int]->0.id != link.id) ==> step.1 is None
                && step.0 == LinkReply::Done(
                Some(IpcFault::Receive(ReceiveError::Closed(CloseReason::Closed))),
            )
        }),
{
    if may_observe(link, v) {
        lemma_observes(link, v);
    }
    law_credit(link.sequence, link.sequence);
}

/// What the link makes of everything but its next publication. It polls its control socket for
/// the rest of a credit; it ends when it is polled after a revocation, when a socket fails or
/// closes or takes nothing, and when the nine bytes are no credit of a frame that went out; and
/// it writes a frame to its end before it looks for the next.
pub proof fn law_export_other_events<P>(
    link: ExportView,
    v: FabricView<P>,
    input: ExportInput,
    declaration: Declaration,
    revision: u32,
    encoding: Encoding,
)
    requires
        link.expects(input),
        link.control.len() < 9,
    ensures
        ({
            let (reply, next, after) = link.step(v, input, declaration, revision, encoding);
            let going_on = if link.again {
                LinkReply::Yield
            } else {
                LinkReply::Pending
            };
            match input {
                ExportInput::Polled => if v.ledger.nodes[link.node as int].revoked {
                    reply == LinkReply::Done(Some(IpcFault::Revoked)) && next is None
                } else {
                    &&& reply == LinkReply::PollControl((9 - link.control.len()) as nat)
                    &&& next == Some(ExportView { again: false, ..link })
                    &&& after == v
                },
                ExportInput::ControlPending => !looks(link, input) ==> {
                    &&& next == Some(link)
                    &&& after == v
                    &&& reply == if link.stage is Writing {
                        LinkReply::Write
                    } else {
                        going_on
                    }
                },
                ExportInput::ControlRead(data) => {
                    let control = link.control + data;
                    &&& data.len() == 0 ==> next is None && reply == LinkReply::Done(
                        Some(IpcFault::Io(IoKind::UnexpectedEof, "early eof"@)),
                    )
                    &&& data.len() > 0 && control.len() < 9 ==> {
                        &&& reply == LinkReply::PollControl((9 - control.len()) as nat)
                        &&& next == Some(ExportView { control, ..link })
                        &&& after == v
                    }
                    &&& control.len() == 9 && data.len() > 0 && (!link.outstanding || control
                        != crate::ipc::credit_bytes(link.sequence)) ==> next is None && reply
                        == LinkReply::Done(Some(IpcFault::Protocol))
                    &&& control.len() == 9 && data.len() > 0 && link.outstanding && control
                        == crate::ipc::credit_bytes(link.sequence) && link.stage is Writing ==> {
                        &&& reply is Write
                        &&& next == Some(
                            ExportView {
                                outstanding: false,
                                control: Seq::empty(),
                                again: true,
                                ..link
                            },
                        )
                        &&& after == v
                    }
                },
                ExportInput::DataWritten(count) => link.stage matches ExportStage::Writing(
                    header,
                    payload,
                    written,
                ) ==> {
                    &&& count == 0 ==> next is None && reply == LinkReply::Done(
                        Some(IpcFault::Io(IoKind::WriteZero, "write zero"@)),
                    )
                    &&& count > 0 && written + count < header.len() + payload.len() ==> {
                        &&& reply is Write
                        &&& next == Some(
                            ExportView {
                                stage: ExportStage::Writing(header, payload, written + count),
                                ..link
                            },
                        )
                        &&& after == v
                    }
                    &&& count > 0 && written + count >= header.len() + payload.len() ==> {
                        &&& reply is Yield
                        &&& next == Some(ExportView { stage: ExportStage::Ready, ..link })
                        &&& after == v
                    }
                },
                ExportInput::DataPending => reply == going_on && next == Some(link) && after == v,
                ExportInput::Failed(fault) => next is None && reply == LinkReply::Done(
                    Some(fault),
                ),
            }
        }),
{
    if input is ControlRead {
        let data = input->ControlRead_0;
        let control = link.control + data;
        if control.len() == 9 {
            crate::ipc::law_credit_unique(control, link.sequence);
        }
    }
}

/// Over any schedule: a link that is still there after an event has had no gap in what it took.
/// If the event finds that the next publication is lost, the link ends with that event, with
/// the range that is lost, and takes and writes nothing.
pub proof fn law_export_schedule_gap<E: WireCodec, P: Carries<E::Payload>>(
    run: ExportRun<P>,
    from: u64,
    v: FabricView<P>,
    input: ExportInput,
    encoding: Encoding,
)
    requires
        run.link is Some,
        possible::<E, P>(run, from, ExportTurn::Event(v, input, encoding)),
        looks(run.link->0, input),
        may_observe(run.link->0, v),
        !v.streams[run.link->0.stream as int].closed,
        v.streams[run.link->0.stream as int].subscribers[run.link->0.index as int] is Some,
        v.streams[run.link->0.stream as int].subscribers[run.link->0.index as int]->0.id
            == run.link->0.id,
    ensures
        ({
            let st = v.streams[run.link->0.stream as int];
            let after = turned::<E, P>(run, ExportTurn::Event(v, input, encoding));
            let oldest = st.tail - st.entries.len();
            let next = from + run.taken.len();
            &&& next < oldest ==> {
                &&& after.link is None
                &&& after.reply == LinkReply::Done(
                    Some(IpcFault::Gap(next as u64, oldest as u64)),
                )
                &&& after.taken == run.taken
                &&& after.written == run.written
            }
            &&& next < st.tail && after.link is Some ==> {
                &&& after.taken.len() == run.taken.len() + 1
                &&& oldest <= next
                &&& after.taken.last().sequence == next
                &&& after.taken.last().value == st.entries[next - oldest].value
            }
        }),
{
    let link = run.link->0;
    let st = v.streams[link.stream as int];
    let next = st.subscribers[link.index as int]->0.next;
    let oldest = st.tail - st.entries.len();
    assert(v.stream_sound(link.stream));
    assert(next == from + run.taken.len());
    if next < oldest {
        law_export_gap(
            link,
            v,
            input,
            declared::<E, P>(),
            E::SCHEMA_REVISION,
            encoding,
            next,
        );
        assert(run.written + link.outgoing().take(0) =~= run.written);
    } else if next < st.tail {
        law_export_takes(
            link,
            v,
            input,
            declared::<E, P>(),
            E::SCHEMA_REVISION,
            encoding,
            next,
        );
    }
}

} // verus!
