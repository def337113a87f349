//! Exporting links over whole schedules: what they have taken, written and been credited by
//! any order of socket readiness, and what they leave alone once they are cut off.
use crate::fabric::declared;
use crate::fabric_model::{
    observe_right, one_subscription, CursorView, Declaration, FabricView, ReceiveVerdict,
};
use crate::grant::RESOURCES;
use crate::ipc::{
    credit_bytes, header_bytes, is_credit, law_credit, link_allowance, LinkReply, CREDIT_BYTES,
    HEADER_BYTES,
};
use crate::item::StreamItem;
use crate::link_charge_laws::{law_export_charged, law_export_ended};
use crate::payload::Carries;
use crate::unix_export::{explains, Encoding, ExportInput, ExportOutcome, ExportStage, ExportView};
use crate::unix_link::else_unused;
use crate::wire::{WireCodec, WireError};
use vstd::prelude::*;

verus! {

/// Something that happens around an exporting link.
pub enum ExportTurn<P> {
    /// The peer sends these bytes on the control socket.
    Feed(Seq<u8>),
    /// The data socket takes that many more bytes.
    Permit(nat),
    /// The link is told of an event. The fabric is as others have left it by then; the last
    /// part is what the codec makes of the payload that it is handed.
    Event(FabricView<P>, ExportInput, Encoding),
    /// The link is ended from outside.
    Cancel,
}

/// A publication that was taken from the stream.
pub struct ExportFrame<P> {
    /// Its sequence.
    pub sequence: u64,
    /// The payload.
    pub value: P,
    /// The payload, encoded.
    pub payload: Seq<u8>,
    /// The whole frame.
    pub bytes: Seq<u8>,
}

/// An exporting link and its sockets, with all that has passed.
pub struct ExportRun<P> {
    /// The link, until it ends.
    pub link: Option<ExportView>,
    /// What the link asked for last.
    pub reply: LinkReply,
    /// All that the peer has sent.
    pub fed: Seq<u8>,
    /// What the link has not read of that.
    pub unread: Seq<u8>,
    /// What has been read of a credit that is not whole.
    pub partial: Seq<u8>,
    /// How much the data socket was ready to take in all.
    pub permitted: nat,
    /// What it has not taken of that.
    pub writable: nat,
    /// What the link has written on the data socket.
    pub written: Seq<u8>,
    /// The publications that were taken.
    pub taken: Seq<ExportFrame<P>>,
    /// How many of them are credited.
    pub credited: nat,
    /// Nothing has come on the control socket since it was last found empty.
    pub heard: bool,
    /// The link has gone as far as it can with the sockets as they are.
    pub idle: bool,
}

/// The credits of frames, one after the other.
pub open spec fn credits<P>(frames: Seq<ExportFrame<P>>) -> Seq<u8>
    decreases frames.len(),
{
    if frames.len() == 0 {
        Seq::empty()
    } else {
        credits(frames.drop_last()) + credit_bytes(frames.last().sequence)
    }
}

/// The bytes of frames, one after the other.
pub open spec fn frames_bytes<P>(frames: Seq<ExportFrame<P>>) -> Seq<u8>
    decreases frames.len(),
{
    if frames.len() == 0 {
        Seq::empty()
    } else {
        frames_bytes(frames.drop_last()) + frames.last().bytes
    }
}

/// What a link has still to write of its frame.
pub open spec fn unsent(link: ExportView) -> Seq<u8> {
    match link.stage {
        ExportStage::Writing(header, payload, written) => (header + payload).skip(written as int),
        _ => Seq::empty(),
    }
}

/// The bytes of the control socket that come with an event.
pub open spec fn data_of(input: ExportInput) -> Seq<u8> {
    match input {
        ExportInput::ControlRead(data) => data,
        _ => Seq::empty(),
    }
}

/// The event completes the credit that the link waits for.
pub open spec fn credits_now(link: ExportView, input: ExportInput) -> bool {
    &&& input is ControlRead
    &&& data_of(input).len() > 0
    &&& link.control.len() + data_of(input).len() == CREDIT_BYTES
    &&& link.accepts(link.control + data_of(input))
}

impl<P> ExportRun<P> {
    /// A link that was just bound, with nothing on its sockets.
    pub open spec fn start(link: ExportView) -> ExportRun<P> {
        ExportRun {
            link: Some(link),
            reply: LinkReply::Yield,
            fed: Seq::empty(),
            unread: Seq::empty(),
            partial: Seq::empty(),
            permitted: 0,
            writable: 0,
            written: Seq::empty(),
            taken: Seq::empty(),
            credited: 0,
            heard: false,
            idle: false,
        }
    }

    /// The link waits to be polled.
    pub open spec fn between_polls(self) -> bool {
        self.reply is Pending || self.reply is Yield
    }

    /// The sockets can answer so what the link asked for last.
    pub open spec fn answers(self, input: ExportInput) -> bool {
        match input {
            ExportInput::Polled => self.between_polls(),
            ExportInput::ControlPending => self.reply is PollControl && self.unread.len() == 0,
            ExportInput::ControlRead(data) => {
                &&& self.reply matches LinkReply::PollControl(wanted) && data.len() <= wanted
                &&& data.is_prefix_of(self.unread)
            },
            ExportInput::DataWritten(count) => self.reply is Write && count <= self.writable,
            ExportInput::DataPending => self.reply is Write && self.writable == 0,
            ExportInput::Failed(_) => !self.between_polls(),
        }
    }
}

/// The cursor of the link, if its subscription is in force.
pub open spec fn cursor<P>(link: ExportView, v: FabricView<P>) -> Option<CursorView> {
    let st = v.streams[link.stream as int];
    if st.closed {
        None
    } else {
        match st.subscribers[link.index as int] {
            Some(cursor) => if cursor.id == link.id {
                Some(cursor)
            } else {
                None
            },
            None => None,
        }
    }
}

/// The turn can come next: the link is told only what its sockets answer and what its codec
/// makes of a payload, nobody takes from it what it holds, and nobody else moves its cursor,
/// which began at `from`.
pub open spec fn possible<E: WireCodec, P: Carries<E::Payload>>(
    run: ExportRun<P>,
    from: u64,
    turn: ExportTurn<P>,
) -> bool {
    match turn {
        ExportTurn::Event(v, input, encoding) => run.link matches Some(link) ==> {
            &&& run.answers(input)
            &&& link.expects(input)
            &&& explains::<E, P>(link.hands(v, input), link.limit, encoding)
            &&& link.held(v)
            &&& link.index < v.streams[link.stream as int].subscribers.len()
                || v.streams[link.stream as int].closed
            &&& cursor(link, v) matches Some(cursor) ==> cursor.next == from + run.taken.len()
        },
        _ => true,
    }
}

/// What an event leaves that has that outcome.
pub open spec fn followed<P>(
    run: ExportRun<P>,
    link: ExportView,
    v: FabricView<P>,
    input: ExportInput,
    outcome: ExportOutcome<P>,
) -> ExportRun<P> {
    let (reply, next, after) = outcome;
    let sent = match input {
        ExportInput::DataWritten(count) => count,
        _ => 0,
    };
    let heard = match input {
        ExportInput::ControlPending => true,
        ExportInput::Polled => false,
        _ => run.heard,
    };
    ExportRun {
        link: next,
        reply,
        unread: run.unread.skip(data_of(input).len() as int),
        partial: if credits_now(link, input) {
            Seq::empty()
        } else {
            run.partial + data_of(input)
        },
        writable: (run.writable - sent) as nat,
        written: run.written + link.outgoing().take(sent as int),
        taken: match (link.hands(v, input), next) {
            (Some(value), Some(now)) => run.taken.push(
                ExportFrame {
                    sequence: now.sequence,
                    value,
                    payload: now.stage->Writing_1,
                    bytes: now.stage->Writing_0 + now.stage->Writing_1,
                },
            ),
            _ => run.taken,
        },
        credited: run.credited + if credits_now(link, input) {
            1nat
        } else {
            0nat
        },
        heard,
        idle: reply is Pending && heard,
        ..run
    }
}

/// What one turn leaves.
pub open spec fn turned<E: WireCodec, P: Carries<E::Payload>>(
    run: ExportRun<P>,
    turn: ExportTurn<P>,
) -> ExportRun<P> {
    match turn {
        ExportTurn::Feed(bytes) => ExportRun {
            fed: run.fed + bytes,
            unread: run.unread + bytes,
            heard: false,
            idle: false,
            ..run
        },
        ExportTurn::Permit(count) => ExportRun {
            permitted: run.permitted + count,
            writable: run.writable + count,
            idle: false,
            ..run
        },
        ExportTurn::Cancel => ExportRun { link: None, idle: false, ..run },
        ExportTurn::Event(v, input, encoding) => match run.link {
            None => run,
            Some(link) => followed(
                run,
                link,
                v,
                input,
                link.step(v, input, declared::<E, P>(), E::SCHEMA_REVISION, encoding),
            ),
        },
    }
}

/// A run after a schedule.
pub open spec fn scheduled<E: WireCodec, P: Carries<E::Payload>>(
    run: ExportRun<P>,
    turns: Seq<ExportTurn<P>>,
) -> ExportRun<P>
    decreases turns.len(),
{
    if turns.len() == 0 {
        run
    } else {
        turned::<E, P>(scheduled::<E, P>(run, turns.drop_last()), turns.last())
    }
}

/// Every turn of the schedule can come where it stands.
pub open spec fn can_happen<E: WireCodec, P: Carries<E::Payload>>(
    run: ExportRun<P>,
    from: u64,
    turns: Seq<ExportTurn<P>>,
) -> bool
    decreases turns.len(),
{
    turns.len() > 0 ==> {
        &&& can_happen::<E, P>(run, from, turns.drop_last())
        &&& possible::<E, P>(scheduled::<E, P>(run, turns.drop_last()), from, turns.last())
    }
}

/// The frame is the publication with that sequence: a header of the link's own event, and
/// what the codec made of the payload.
pub open spec fn carries<E: WireCodec, P: Carries<E::Payload>>(
    frame: ExportFrame<P>,
    limit: nat,
    sequence: int,
) -> bool {
    &&& frame.sequence == sequence
    &&& frame.payload.len() <= limit
    &&& frame.payload.len() <= usize::MAX
    &&& frame.bytes == header_bytes(
        E::ID,
        E::WIRE_MAJOR,
        E::SCHEMA_REVISION,
        frame.sequence,
        frame.payload.len(),
    ) + frame.payload
    &&& E::encodes(
        frame.value.payload(),
        frame.payload,
        Ok::<usize, WireError>(frame.payload.len() as usize),
    )
}

/// Frame after frame carries the publications from `from` on.
pub open spec fn in_order<E: WireCodec, P: Carries<E::Payload>>(
    frames: Seq<ExportFrame<P>>,
    limit: nat,
    from: u64,
) -> bool {
    forall|i: int|
        0 <= i < frames.len() ==> carries::<E, P>(#[trigger] frames[i], limit, from + i)
}

/// The link can go on with neither socket: it waits for a credit, for its stream, or for the
/// data socket.
pub open spec fn stuck(link: ExportView, writable: nat) -> bool {
    match link.stage {
        ExportStage::Ready => link.outstanding,
        ExportStage::Receiving(_) => true,
        ExportStage::Writing(_, _, _) => writable == 0,
    }
}

/// What holds of a running link at every point of a schedule.
pub open spec fn running<P>(run: ExportRun<P>, link: ExportView, limit: nat) -> bool {
    &&& link.limit == limit
    &&& link.control == run.partial
    &&& link.control.len() < CREDIT_BYTES
    &&& link.outstanding == (run.taken.len() == run.credited + 1)
    &&& link.outstanding ==> link.sequence == run.taken.last().sequence
    &&& link.stage is Receiving ==> !link.outstanding
    &&& link.stage matches ExportStage::Writing(header, payload, written) ==> {
        &&& header.len() == HEADER_BYTES
        &&& written < header.len() + payload.len()
    }
    &&& run.written + unsent(link) == frames_bytes(run.taken)
    &&& run.reply is Write ==> link.stage is Writing
    &&& run.reply matches LinkReply::PollControl(wanted) ==> wanted == CREDIT_BYTES
        - link.control.len()
    &&& run.idle ==> run.unread.len() == 0 && stuck(link, run.writable)
}

/// What holds at every point of a schedule: the frames taken are consecutive publications,
/// all that was written is of these frames, all that was read is credits for them in their
/// order and part of one more, and at most one frame awaits its credit.
pub open spec fn accounted<E: WireCodec, P: Carries<E::Payload>>(
    run: ExportRun<P>,
    limit: nat,
    from: u64,
) -> bool {
    &&& run.permitted == run.written.len() + run.writable
    &&& run.credited <= run.taken.len() <= run.credited + 1
    &&& in_order::<E, P>(run.taken, limit, from)
    &&& run.heard ==> run.unread.len() == 0
    &&& run.fed == credits(run.taken.take(run.credited as int)) + run.partial + run.unread
    &&& match run.link {
        Some(link) => running(run, link, limit),
        None => run.written.is_prefix_of(frames_bytes(run.taken)),
    }
}

/// The same subscriptions in one stream.
spec fn same_cursors<P>(a: FabricView<P>, b: FabricView<P>, s: nat) -> bool {
    &&& b.streams.len() == a.streams.len()
    &&& b.streams[s as int].subscribers == a.streams[s as int].subscribers
    &&& b.streams[s as int].closed == a.streams[s as int].closed
}

/// Reclaiming publications moves no cursor.
proof fn lemma_retire_cursors<P>(v: FabricView<P>, s: nat, tries: nat)
    requires
        s < v.streams.len(),
    ensures
        same_cursors(v, v.retire_consumed(s, tries), s),
    decreases tries,
{
    let st = v.streams[s as int];
    if tries > 0 && st.entries.len() > 0 && v.consumed(s, st.entries[0].sequence) {
        lemma_retire_cursors(v.retire_front(s), s, (tries - 1) as nat);
    }
}

/// A receive gets the publication that its cursor stands at, and moves nothing else.
proof fn lemma_recv_cursor<P>(v: FabricView<P>, s: nat, index: nat, id: u64, node: nat)
    requires
        s < v.streams.len(),
        index < v.streams[s as int].subscribers.len() || v.streams[s as int].closed,
    ensures
        ({
            let (item, after) = v.recv_now(s, index, id, node);
            &&& item matches Ok(Some(StreamItem::Data { sequence, value })) ==> {
                &&& !v.streams[s as int].closed
                &&& v.streams[s as int].subscribers[index as int] matches Some(cursor)
                &&& cursor.id == id
                &&& cursor.next == sequence
            }
            &&& !(item matches Ok(Some(_))) ==> same_cursors(v, after, s)
        }),
{
    let (item, after) = v.try_recv(s, index, id, node);
    lemma_retire_cursors(after, s, after.streams[s as int].config.capacity as nat);
}

/// An attempt to receive gets the publication that the cursor stands at.
proof fn lemma_attempt_cursor<P>(link: ExportView, v: FabricView<P>)
    requires
        link.stream < v.streams.len(),
        link.index < v.streams[link.stream as int].subscribers.len()
            || v.streams[link.stream as int].closed,
    ensures
        link.attempt(v) matches Some(attempt) ==> (
        attempt.0 matches ReceiveVerdict::Received(StreamItem::Data { sequence, value }) ==> {
            &&& cursor(link, v) matches Some(cursor)
            &&& cursor.next == sequence
        }),
{
    let s = link.stream;
    let (item, after) = v.recv_now(s, link.index, link.id, link.node);
    lemma_recv_cursor(v, s, link.index, link.id, link.node);
    if link.stage is Ready && !(item matches Ok(Some(_))) {
        let (error, waiting) = after.wait(s, link.node);
        if error is None {
            lemma_recv_cursor(waiting, s, link.index, link.id, link.node);
        }
    }
}

/// One more frame has one more credit.
proof fn lemma_push<P>(frames: Seq<ExportFrame<P>>, frame: ExportFrame<P>)
    ensures
        frames_bytes(frames.push(frame)) == frames_bytes(frames) + frame.bytes,
{
    assert(frames.push(frame).drop_last() =~= frames);
}

/// The link goes on once the control socket has been looked at, which keeps the account.
proof fn lemma_advance<E: WireCodec, P: Carries<E::Payload>>(
    run: ExportRun<P>,
    at: ExportView,
    limit: nat,
    from: u64,
    v: FabricView<P>,
    encoding: Encoding,
    next: ExportRun<P>,
)
    requires
        run.link == Some(at),
        accounted::<E, P>(run, limit, from),
        at.stream < v.streams.len(),
        at.index < v.streams[at.stream as int].subscribers.len()
            || v.streams[at.stream as int].closed,
        cursor(at, v) matches Some(cursor) ==> cursor.next == from + run.taken.len(),
        explains::<E, P>(at.hands(v, ExportInput::ControlPending), at.limit, encoding),
        ({
            let (reply, now, after) = at.advance(v, declared::<E, P>(), E::SCHEMA_REVISION, encoding);
            &&& next.link == now
            &&& next.reply == reply
            &&& next.taken == match (at.hands(v, ExportInput::ControlPending), now) {
                (Some(value), Some(now)) => run.taken.push(
                    ExportFrame {
                        sequence: now.sequence,
                        value,
                        payload: now.stage->Writing_1,
                        bytes: now.stage->Writing_0 + now.stage->Writing_1,
                    },
                ),
                _ => run.taken,
            }
            &&& next.idle ==> reply is Pending && next.unread.len() == 0
        }),
        next.heard ==> next.unread.len() == 0,
        next.fed == run.fed,
        next.unread == run.unread,
        next.partial == run.partial,
        next.permitted == run.permitted,
        next.writable == run.writable,
        next.written == run.written,
        next.credited == run.credited,
    ensures
        accounted::<E, P>(next, limit, from),
{
    let (reply, now, after) = at.advance(v, declared::<E, P>(), E::SCHEMA_REVISION, encoding);
    lemma_attempt_cursor(at, v);
    assert(run.written.is_prefix_of(frames_bytes(run.taken)));
    match at.attempt(v) {
        None => {
            assert(at.hands(v, ExportInput::ControlPending) is None);
            assert(unsent(next.link->0) == unsent(at));
        },
        Some((verdict, _)) => match verdict {
            ReceiveVerdict::Received(StreamItem::Data { sequence, value }) => {
                assert(at.hands(v, ExportInput::ControlPending) == Some(value));
                assert(unsent(at) == Seq::<u8>::empty());
                assert(run.written + unsent(at) =~= run.written);
                if now is Some {
                    let link = now->0;
                    let header = link.stage->Writing_0;
                    let payload = link.stage->Writing_1;
                    let frame = next.taken.last();
                    assert(next.taken == run.taken.push(frame));
                    lemma_push(run.taken, frame);
                    assert(unsent(link) =~= header + payload);
                    assert(!at.outstanding);
                    assert(run.taken.len() == run.credited);
                    assert(next.taken.take(next.credited as int) =~= run.taken.take(
                        run.credited as int,
                    ));
                    lemma_header_len(declared::<E, P>(), E::SCHEMA_REVISION, sequence, payload.len());
                    assert(carries::<E, P>(frame, limit, from + run.taken.len()));
                    assert(in_order::<E, P>(next.taken, limit, from)) by {
                        assert forall|i: int| 0 <= i < next.taken.len() implies carries::<E, P>(
                            #[trigger] next.taken[i],
                            limit,
                            from + i,
                        ) by {
                            if i < run.taken.len() {
                                assert(next.taken[i] == run.taken[i]);
                            }
                        }
                    }
                    assert(next.written + unsent(link) =~= frames_bytes(next.taken));
                }
            },
            _ => {
                assert(at.hands(v, ExportInput::ControlPending) is None);
                if now is Some {
                    assert(unsent(now->0) == unsent(at));
                }
            },
        },
    }
}

/// The length of a header.
proof fn lemma_header_len(declaration: Declaration, revision: u32, sequence: u64, length: nat)
    ensures
        header_bytes(
            declaration.event,
            declaration.wire_major,
            revision,
            sequence,
            length,
        ).len() == HEADER_BYTES,
{
    crate::bytes::lemma_le_len(declaration.event.0 as nat, 16);
    crate::bytes::lemma_le_len(declaration.wire_major as nat, 2);
    crate::bytes::lemma_le_len(revision as nat, 4);
    crate::bytes::lemma_le_len(sequence as nat, 8);
    crate::bytes::lemma_le_len(length, 4);
}

/// Bytes of the control socket keep the account.
proof fn lemma_control<E: WireCodec, P: Carries<E::Payload>>(
    run: ExportRun<P>,
    link: ExportView,
    limit: nat,
    from: u64,
    v: FabricView<P>,
    data: Seq<u8>,
    encoding: Encoding,
)
    requires
        run.link == Some(link),
        accounted::<E, P>(run, limit, from),
        possible::<E, P>(run, from, ExportTurn::Event(v, ExportInput::ControlRead(data), encoding)),
    ensures
        accounted::<E, P>(
            turned::<E, P>(run, ExportTurn::Event(v, ExportInput::ControlRead(data), encoding)),
            limit,
            from,
        ),
{
    let input = ExportInput::ControlRead(data);
    let next = turned::<E, P>(run, ExportTurn::Event(v, input, encoding));
    let control = link.control + data;
    assert(run.unread =~= data + run.unread.skip(data.len() as int));
    assert(run.written + link.outgoing().take(0) =~= run.written);
    assert(run.written.is_prefix_of(frames_bytes(run.taken)));
    let rest = run.unread.skip(data.len() as int);
    let kept = credits(run.taken.take(run.credited as int));
    assert(run.fed =~= kept + control + rest);
    if credits_now(link, input) {
        let frame = run.taken.last();
        law_credit(frame.sequence, frame.sequence);
        assert(link.outstanding);
        lemma_credit_exact(control, link.sequence);
        assert(control == credit_bytes(frame.sequence));
        let more = run.taken.take(run.credited as int + 1);
        assert(more =~= run.taken);
        assert(more.drop_last() =~= run.taken.take(run.credited as int));
        let at = link.credited();
        let middle = ExportRun {
            link: Some(at),
            reply: LinkReply::Yield,
            unread: rest,
            partial: Seq::empty(),
            credited: run.credited + 1,
            idle: false,
            ..run
        };
        assert(middle.fed =~= credits(more) + middle.partial + middle.unread);
        assert(unsent(at) == unsent(link));
        assert(accounted::<E, P>(middle, limit, from));
        lemma_advance::<E, P>(middle, at, limit, from, v, encoding, next);
    } else {
        if next.link is Some {
            assert(unsent(next.link->0) == unsent(link));
        }
    }
}

/// Nine bytes that are taken for a credit are that credit.
proof fn lemma_credit_exact(bytes: Seq<u8>, sequence: u64)
    requires
        bytes.len() == CREDIT_BYTES,
        is_credit(bytes, sequence),
    ensures
        bytes == credit_bytes(sequence),
{
    crate::bytes::lemma_spans();
    let tail = bytes.subrange(1, 9);
    crate::bytes::lemma_le_unique(tail);
    assert(bytes =~= seq![1u8] + tail);
}

/// The write of a frame keeps the account.
proof fn lemma_wrote<E: WireCodec, P: Carries<E::Payload>>(
    run: ExportRun<P>,
    link: ExportView,
    limit: nat,
    from: u64,
    v: FabricView<P>,
    count: nat,
    encoding: Encoding,
)
    requires
        run.link == Some(link),
        accounted::<E, P>(run, limit, from),
        possible::<E, P>(run, from, ExportTurn::Event(v, ExportInput::DataWritten(count), encoding)),
    ensures
        accounted::<E, P>(
            turned::<E, P>(run, ExportTurn::Event(v, ExportInput::DataWritten(count), encoding)),
            limit,
            from,
        ),
{
    let input = ExportInput::DataWritten(count);
    let next = turned::<E, P>(run, ExportTurn::Event(v, input, encoding));
    assert(run.partial + Seq::<u8>::empty() =~= run.partial);
    assert(run.unread.skip(0) =~= run.unread);
    match link.stage {
        ExportStage::Writing(header, payload, written) => {
            let all = header + payload;
            let part = link.outgoing().take(count as int);
            let left = all.skip(written + count as int);
            assert(part =~= all.subrange(written as int, written + count as int));
            assert(unsent(link) =~= part + left);
            assert(next.written + left =~= run.written + unsent(link));
            if next.link is Some {
                assert(unsent(next.link->0) =~= left);
                assert(next.written + unsent(next.link->0) == frames_bytes(next.taken));
            } else {
                assert(next.written.is_prefix_of(frames_bytes(next.taken)));
            }
        },
        _ => {},
    }
}

/// One event keeps the account.
proof fn lemma_event<E: WireCodec, P: Carries<E::Payload>>(
    run: ExportRun<P>,
    link: ExportView,
    limit: nat,
    from: u64,
    v: FabricView<P>,
    input: ExportInput,
    encoding: Encoding,
)
    requires
        run.link == Some(link),
        accounted::<E, P>(run, limit, from),
        possible::<E, P>(run, from, ExportTurn::Event(v, input, encoding)),
    ensures
        accounted::<E, P>(turned::<E, P>(run, ExportTurn::Event(v, input, encoding)), limit, from),
{
    let next = turned::<E, P>(run, ExportTurn::Event(v, input, encoding));
    match input {
        ExportInput::ControlRead(data) => lemma_control::<E, P>(
            run,
            link,
            limit,
            from,
            v,
            data,
            encoding,
        ),
        ExportInput::DataWritten(count) => lemma_wrote::<E, P>(
            run,
            link,
            limit,
            from,
            v,
            count,
            encoding,
        ),
        _ => {
            assert(run.partial + Seq::<u8>::empty() =~= run.partial);
            assert(run.unread.skip(0) =~= run.unread);
            assert(run.written + link.outgoing().take(0) =~= run.written);
            assert(run.written.is_prefix_of(frames_bytes(run.taken)));
            if input is ControlPending {
                lemma_advance::<E, P>(run, link, limit, from, v, encoding, next);
            } else if next.link is Some {
                assert(unsent(next.link->0) == unsent(link));
            }
        },
    }
}

/// A link that was just bound: nothing has been taken or read.
pub open spec fn fresh(link: ExportView) -> bool {
    link.stage is Ready && !link.outstanding && link.control.len() == 0
}

/// By any schedule of what the peer sends, what the data socket takes, and how the link is
/// told of it, a link whose cursor began at `from` has taken consecutive publications from
/// there on and written nothing but their frames; it has read nothing but their credits, in
/// their order, and part of one more; and at most one frame awaits its credit.
pub proof fn law_export_schedule<E: WireCodec, P: Carries<E::Payload>>(
    link: ExportView,
    from: u64,
    turns: Seq<ExportTurn<P>>,
)
    requires
        fresh(link),
        can_happen::<E, P>(ExportRun::start(link), from, turns),
    ensures
        accounted::<E, P>(scheduled::<E, P>(ExportRun::start(link), turns), link.limit, from),
    decreases turns.len(),
{
    let start = ExportRun::<P>::start(link);
    if turns.len() == 0 {
        lemma_start::<E, P>(link, from);
    } else {
        law_export_schedule::<E, P>(link, from, turns.drop_last());
        let run = scheduled::<E, P>(start, turns.drop_last());
        match turns.last() {
            ExportTurn::Event(v, input, encoding) => {
                if run.link is Some {
                    lemma_event::<E, P>(run, run.link->0, link.limit, from, v, input, encoding);
                }
            },
            _ => lemma_around::<E, P>(run, link.limit, from, turns.last()),
        }
    }
}

/// At the start nothing has passed.
proof fn lemma_start<E: WireCodec, P: Carries<E::Payload>>(link: ExportView, from: u64)
    requires
        fresh(link),
    ensures
        accounted::<E, P>(ExportRun::start(link), link.limit, from),
{
    let start = ExportRun::<P>::start(link);
    assert(start.taken.take(0) =~= Seq::empty());
    assert(start.fed =~= credits(start.taken.take(0)) + start.partial + start.unread);
    assert(start.written + unsent(link) =~= frames_bytes(start.taken));
    assert(link.control =~= start.partial);
}

/// What happens around a link keeps the account.
proof fn lemma_around<E: WireCodec, P: Carries<E::Payload>>(
    run: ExportRun<P>,
    limit: nat,
    from: u64,
    turn: ExportTurn<P>,
)
    requires
        accounted::<E, P>(run, limit, from),
        !(turn is Event),
    ensures
        accounted::<E, P>(turned::<E, P>(run, turn), limit, from),
{
    let next = turned::<E, P>(run, turn);
    match turn {
        ExportTurn::Feed(bytes) => {
            assert(next.fed =~= credits(next.taken.take(next.credited as int)) + next.partial
                + next.unread);
        },
        _ => {
            if run.link is Some {
                assert(run.written.is_prefix_of(frames_bytes(run.taken)));
            }
        },
    }
}

/// Whenever a link has gone as far as it can, the data socket has had as much of the frames
/// of all publications taken as it takes, and all that the peer has sent is read. A link
/// that then waits neither for its stream nor for the data socket has taken one publication
/// more than were credited: one after each whole credit.
pub proof fn law_export_settled<E: WireCodec, P: Carries<E::Payload>>(
    link: ExportView,
    from: u64,
    turns: Seq<ExportTurn<P>>,
)
    requires
        fresh(link),
        can_happen::<E, P>(ExportRun::start(link), from, turns),
    ensures
        ({
            let run = scheduled::<E, P>(ExportRun::start(link), turns);
            let frames = frames_bytes(run.taken);
            &&& run.written.is_prefix_of(frames)
            &&& run.taken.len() <= run.credited + 1
            &&& run.idle && run.link is Some ==> {
                &&& run.written == frames.take(
                    if run.permitted < frames.len() {
                        run.permitted as int
                    } else {
                        frames.len() as int
                    },
                )
                &&& run.fed == credits(run.taken.take(run.credited as int)) + run.partial
                &&& run.partial.len() < CREDIT_BYTES
                &&& run.credited == run.fed.len() / CREDIT_BYTES as nat
                &&& run.link->0.stage is Ready ==> run.taken.len() == run.credited + 1
            }
        }),
{
    law_export_schedule::<E, P>(link, from, turns);
    let run = scheduled::<E, P>(ExportRun::start(link), turns);
    let frames = frames_bytes(run.taken);
    if run.link is Some {
        let now = run.link->0;
        assert(run.written.is_prefix_of(frames));
        if run.idle {
            let first = run.taken.take(run.credited as int);
            lemma_credits_len(first);
            assert(run.fed =~= credits(first) + run.partial);
            assert(run.fed.len() / CREDIT_BYTES as nat == run.credited) by (nonlinear_arith)
                requires
                    run.fed.len() == CREDIT_BYTES * run.credited + run.partial.len(),
                    run.partial.len() < CREDIT_BYTES,
                    CREDIT_BYTES == 9,
            ;
            if now.stage is Writing {
                assert(run.written =~= frames.take(run.permitted as int));
            } else {
                assert(unsent(now) == Seq::<u8>::empty());
                assert(run.written =~= frames);
                assert(frames.take(frames.len() as int) =~= frames);
            }
        }
    }
}

proof fn lemma_credits_len<P>(frames: Seq<ExportFrame<P>>)
    ensures
        credits(frames).len() == CREDIT_BYTES * frames.len(),
    decreases frames.len(),
{
    if frames.len() > 0 {
        lemma_credits_len(frames.drop_last());
        law_credit(frames.last().sequence, 0);
    }
}

/// The stream holds these publications for the link, from sequence `from` on: what the link
/// has not received of them is retained.
pub open spec fn supplies<P>(
    link: ExportView,
    v: FabricView<P>,
    from: u64,
    values: Seq<P>,
) -> bool {
    let st = v.streams[link.stream as int];
    &&& v.ledger.enter_error(link.node, st.declaration.event, observe_right()) is None
    &&& from + values.len() <= st.tail
    &&& cursor(link, v) matches Some(cursor)
    &&& st.head() <= cursor.next
    &&& forall|q: int|
        cursor.next <= q < from + values.len() ==> (#[trigger] st.entries[q - st.head()]).value
            == values[q - from]
}

/// The stream holds these publications whenever the link is told of an event.
pub open spec fn supplied_in<P>(
    turns: Seq<ExportTurn<P>>,
    link: ExportView,
    from: u64,
    values: Seq<P>,
) -> bool {
    forall|i: int|
        0 <= i < turns.len() ==> ((#[trigger] turns[i]) matches ExportTurn::Event(
            v,
            input,
            encoding,
        ) ==> supplies(link, v, from, values))
}

/// What the first `count` of these publications are on the wire, for a codec that encodes
/// each payload in one way.
pub open spec fn wire<E: WireCodec, P: Carries<E::Payload>>(
    from: u64,
    values: Seq<P>,
    encode: spec_fn(E::Payload) -> Seq<u8>,
    count: nat,
) -> Seq<u8>
    decreases count,
{
    if count == 0 {
        Seq::empty()
    } else {
        let payload = encode(values[count - 1].payload());
        wire::<E, P>(from, values, encode, (count - 1) as nat) + (header_bytes(
            E::ID,
            E::WIRE_MAJOR,
            E::SCHEMA_REVISION,
            (from + count - 1) as u64,
            payload.len(),
        ) + payload)
    }
}

/// Encoding a payload whole gives what `encode` says.
pub open spec fn encodes_as<E: WireCodec>(encode: spec_fn(E::Payload) -> Seq<u8>) -> bool {
    forall|payload: E::Payload, bytes: Seq<u8>| #[trigger]
        E::encodes(payload, bytes, Ok::<usize, WireError>(bytes.len() as usize)) && bytes.len()
            <= usize::MAX ==> bytes == encode(payload)
}

/// The link is still the one that it was, and has taken the first of these publications.
spec fn takes<P>(run: ExportRun<P>, link: ExportView, values: Seq<P>) -> bool {
    &&& run.taken.len() <= values.len()
    &&& forall|i: int| 0 <= i < run.taken.len() ==> (#[trigger] run.taken[i]).value == values[i]
    &&& run.link matches Some(now) ==> {
        &&& now.stream == link.stream
        &&& now.index == link.index
        &&& now.id == link.id
        &&& now.node == link.node
        &&& now.lease == link.lease
        &&& now.ticket == link.ticket
        &&& !(now.stage is Receiving)
    }
}

/// A link that may take a publication takes the next one that its stream holds.
proof fn lemma_supplied<P>(
    link: ExportView,
    v: FabricView<P>,
    from: u64,
    values: Seq<P>,
    next: int,
)
    requires
        link.stage is Ready,
        !link.outstanding,
        supplies(link, v, from, values),
        cursor(link, v)->0.next == from + next,
        0 <= next < values.len(),
    ensures
        link.attempt(v) matches Some(attempt) && attempt.0
            matches ReceiveVerdict::Received(StreamItem::Data { sequence, value }) && sequence
            == from + next && value == values[next],
{
    let st = v.streams[link.stream as int];
    let q = from + next;
    assert(st.entries[q - st.head()].value == values[q - from]);
}

/// One turn takes the publications on.
proof fn lemma_takes<E: WireCodec, P: Carries<E::Payload>>(
    run: ExportRun<P>,
    link: ExportView,
    from: u64,
    values: Seq<P>,
    turn: ExportTurn<P>,
)
    requires
        takes(run, link, values),
        accounted::<E, P>(run, link.limit, from),
        possible::<E, P>(run, from, turn),
        turn matches ExportTurn::Event(v, input, encoding) ==> supplies(link, v, from, values),
        accounted::<E, P>(turned::<E, P>(run, turn), link.limit, from),
        turned::<E, P>(run, turn).fed.len() < CREDIT_BYTES * values.len(),
    ensures
        takes(turned::<E, P>(run, turn), link, values),
{
    let next = turned::<E, P>(run, turn);
    if turn is Event && run.link is Some {
        let now = run.link->0;
        let v = turn->Event_0;
        let input = turn->Event_1;
        let first = next.taken.take(next.credited as int);
        lemma_credits_len(first);
        assert(next.credited < values.len()) by (nonlinear_arith)
            requires
                CREDIT_BYTES * next.credited <= next.fed.len(),
                next.fed.len() < CREDIT_BYTES * values.len(),
                CREDIT_BYTES == 9,
        ;
        let at = if credits_now(now, input) {
            now.credited()
        } else {
            now
        };
        if (input is ControlPending || credits_now(now, input)) && at.stage is Ready
            && !at.outstanding {
            assert(cursor(at, v) == cursor(link, v));
            assert(supplies(at, v, from, values));
            lemma_supplied(at, v, from, values, run.taken.len() as int);
        }
        assert forall|i: int| 0 <= i < next.taken.len() implies (#[trigger] next.taken[i]).value
            == values[i] by {
            if i < run.taken.len() {
                assert(next.taken[i] == run.taken[i]);
            }
        }
    }
}

proof fn lemma_all_taken<E: WireCodec, P: Carries<E::Payload>>(
    link: ExportView,
    from: u64,
    values: Seq<P>,
    turns: Seq<ExportTurn<P>>,
)
    requires
        fresh(link),
        can_happen::<E, P>(ExportRun::start(link), from, turns),
        supplied_in(turns, link, from, values),
        scheduled::<E, P>(ExportRun::start(link), turns).fed.len() < CREDIT_BYTES * values.len(),
    ensures
        takes(scheduled::<E, P>(ExportRun::start(link), turns), link, values),
    decreases turns.len(),
{
    let start = ExportRun::<P>::start(link);
    if turns.len() > 0 {
        let rest = turns.drop_last();
        let run = scheduled::<E, P>(start, rest);
        assert(supplied_in(rest, link, from, values)) by {
            assert forall|i: int| 0 <= i < rest.len() implies ((
            #[trigger] rest[i]) matches ExportTurn::Event(v, input, encoding) ==> supplies(
                link,
                v,
                from,
                values,
            )) by {
                assert(turns[i] == rest[i]);
            }
        }
        assert(turns[turns.len() - 1] == turns.last());
        lemma_all_taken::<E, P>(link, from, values, rest);
        law_export_schedule::<E, P>(link, from, rest);
        law_export_schedule::<E, P>(link, from, turns);
        lemma_takes::<E, P>(run, link, from, values, turns.last());
    }
}

/// Taken publications are on the wire as a codec with one encoding puts them there.
proof fn lemma_wire<E: WireCodec, P: Carries<E::Payload>>(
    taken: Seq<ExportFrame<P>>,
    limit: nat,
    from: u64,
    values: Seq<P>,
    encode: spec_fn(E::Payload) -> Seq<u8>,
)
    requires
        in_order::<E, P>(taken, limit, from),
        taken.len() <= values.len(),
        forall|i: int| 0 <= i < taken.len() ==> (#[trigger] taken[i]).value == values[i],
        encodes_as::<E>(encode),
    ensures
        frames_bytes(taken) == wire::<E, P>(from, values, encode, taken.len()),
    decreases taken.len(),
{
    if taken.len() > 0 {
        let rest = taken.drop_last();
        assert forall|i: int| 0 <= i < rest.len() implies carries::<E, P>(
            #[trigger] rest[i],
            limit,
            from + i,
        ) by {
            assert(rest[i] == taken[i]);
        }
        assert forall|i: int| 0 <= i < rest.len() implies (#[trigger] rest[i]).value
            == values[i] by {
            assert(rest[i] == taken[i]);
        }
        lemma_wire::<E, P>(rest, limit, from, values, encode);
        let last = taken[taken.len() - 1];
        assert(carries::<E, P>(last, limit, from + (taken.len() - 1)));
        assert(last.payload == encode(last.value.payload()));
    }
}

/// By any schedule over a stream that holds these publications for the link, whenever the
/// link has gone as far as it can, the data socket has as much as it takes of the frames of
/// one publication more than whole credits have come: the frames in their order, each after
/// the credit of the one before.
pub proof fn law_export_readiness<E: WireCodec, P: Carries<E::Payload>>(
    link: ExportView,
    from: u64,
    values: Seq<P>,
    encode: spec_fn(E::Payload) -> Seq<u8>,
    turns: Seq<ExportTurn<P>>,
)
    requires
        fresh(link),
        can_happen::<E, P>(ExportRun::start(link), from, turns),
        supplied_in(turns, link, from, values),
        encodes_as::<E>(encode),
        scheduled::<E, P>(ExportRun::start(link), turns).fed.len() < CREDIT_BYTES * values.len(),
    ensures
        ({
            let run = scheduled::<E, P>(ExportRun::start(link), turns);
            let owed = wire::<E, P>(
                from,
                values,
                encode,
                (run.fed.len() / CREDIT_BYTES as nat + 1) as nat,
            );
            &&& run.written.is_prefix_of(wire::<E, P>(from, values, encode, run.taken.len()))
            &&& run.idle && run.link is Some ==> run.written == owed.take(
                if run.permitted < owed.len() {
                    run.permitted as int
                } else {
                    owed.len() as int
                },
            )
        }),
{
    let run = scheduled::<E, P>(ExportRun::start(link), turns);
    law_export_schedule::<E, P>(link, from, turns);
    law_export_settled::<E, P>(link, from, turns);
    lemma_all_taken::<E, P>(link, from, values, turns);
    lemma_wire::<E, P>(run.taken, link.limit, from, values, encode);
    if run.idle && run.link is Some {
        let frames = frames_bytes(run.taken);
        let owed = wire::<E, P>(from, values, encode, run.credited + 1);
        let now = run.link->0;
        if run.taken.len() == run.credited {
            assert(now.stage is Writing);
            assert(unsent(now).len() > 0);
            assert(run.permitted < frames.len());
            assert(frames =~= owed.take(frames.len() as int));
            assert(frames.take(run.permitted as int) =~= owed.take(run.permitted as int));
        }
    }
}

/// Nothing in the turn ends the link: the grant is in force, no socket fails or closes, the
/// peer credits only what the link has taken, and the codec encodes the payload within the
/// bound.
pub open spec fn harmless<P>(run: ExportRun<P>, link: ExportView, turn: ExportTurn<P>) -> bool {
    match turn {
        ExportTurn::Cancel => false,
        ExportTurn::Feed(bytes) => (run.fed + bytes).is_prefix_of(credits(run.taken)),
        ExportTurn::Event(v, input, encoding) => {
            &&& !v.ledger.nodes[link.node as int].revoked
            &&& !(input is Failed)
            &&& input matches ExportInput::ControlRead(data) ==> data.len() > 0
            &&& input matches ExportInput::DataWritten(count) ==> count > 0
            &&& encoding.length <= link.limit
            &&& encoding.result == Ok::<usize, WireError>(encoding.length)
        },
        _ => true,
    }
}

/// Every turn of the schedule is harmless where it stands.
pub open spec fn all_harmless<E: WireCodec, P: Carries<E::Payload>>(
    run: ExportRun<P>,
    link: ExportView,
    turns: Seq<ExportTurn<P>>,
) -> bool
    decreases turns.len(),
{
    turns.len() > 0 ==> {
        &&& all_harmless::<E, P>(run, link, turns.drop_last())
        &&& harmless(scheduled::<E, P>(run, turns.drop_last()), link, turns.last())
    }
}

/// What the peer has sent is credits of what was taken, and the link is still there.
spec fn goes_on<P>(run: ExportRun<P>) -> bool {
    run.fed.is_prefix_of(credits(run.taken)) && run.link is Some
}

/// A harmless turn lets the link go on with the publications that its stream holds.
proof fn lemma_goes_on<E: WireCodec, P: Carries<E::Payload>>(
    run: ExportRun<P>,
    link: ExportView,
    from: u64,
    values: Seq<P>,
    turn: ExportTurn<P>,
)
    requires
        goes_on(run),
        takes(run, link, values),
        accounted::<E, P>(run, link.limit, from),
        possible::<E, P>(run, from, turn),
        turn matches ExportTurn::Event(v, input, encoding) ==> supplies(link, v, from, values),
        run.fed.len() < CREDIT_BYTES * values.len(),
        harmless(run, link, turn),
    ensures
        goes_on(turned::<E, P>(run, turn)),
{
    let next = turned::<E, P>(run, turn);
    match turn {
        ExportTurn::Event(v, input, encoding) => {
            let now = run.link->0;
            let first = run.taken.take(run.credited as int);
            lemma_credits_len(first);
            lemma_credits_len(run.taken);
            let last = run.taken.last();
            if run.taken.len() == run.credited + 1 {
                assert(run.taken.drop_last() =~= first);
                law_credit(last.sequence, last.sequence);
            } else {
                assert(first =~= run.taken);
            }
            match input {
                ExportInput::ControlRead(data) => {
                    let control = now.control + data;
                    assert(run.taken.len() == run.credited + 1);
                    if control.len() == CREDIT_BYTES {
                        assert(control =~= credit_bytes(last.sequence)) by {
                            assert forall|i: int| 0 <= i < CREDIT_BYTES implies control[i]
                                == credit_bytes(last.sequence)[i] by {
                                let at = credits(first).len() + i;
                                if i >= now.control.len() {
                                    assert(data[i - now.control.len()] == run.unread[i
                                        - now.control.len()]);
                                }
                                assert(run.fed[at] == control[i]);
                                assert(run.fed[at] == credits(run.taken)[at]);
                            }
                        }
                        let at = now.credited();
                        assert(run.taken.len() < values.len()) by (nonlinear_arith)
                            requires
                                CREDIT_BYTES * run.taken.len() <= run.fed.len(),
                                run.fed.len() < CREDIT_BYTES * values.len(),
                                CREDIT_BYTES == 9,
                        ;
                        if at.stage is Ready {
                            assert(supplies(at, v, from, values));
                            lemma_supplied(at, v, from, values, run.taken.len() as int);
                        }
                    }
                },
                ExportInput::ControlPending => {
                    if now.stage is Ready && !now.outstanding {
                        assert(run.taken.len() < values.len()) by (nonlinear_arith)
                            requires
                                CREDIT_BYTES * run.taken.len() <= run.fed.len(),
                                run.fed.len() < CREDIT_BYTES * values.len(),
                                CREDIT_BYTES == 9,
                        ;
                        assert(supplies(now, v, from, values));
                        lemma_supplied(now, v, from, values, run.taken.len() as int);
                    }
                },
                _ => {},
            }
            assert(next.link is Some);
            if next.taken != run.taken {
                assert(next.taken.drop_last() =~= run.taken);
                assert(credits(run.taken).is_prefix_of(credits(next.taken)));
                assert forall|i: int| 0 <= i < run.fed.len() implies run.fed[i] == credits(
                    next.taken,
                )[i] by {
                    assert(run.fed[i] == credits(run.taken)[i]);
                }
                assert(next.fed =~= credits(next.taken).take(next.fed.len() as int));
            }
        },
        _ => {},
    }
}

/// A link goes on by any schedule of harmless turns over a stream that holds these
/// publications for it.
pub proof fn law_export_goes_on<E: WireCodec, P: Carries<E::Payload>>(
    link: ExportView,
    from: u64,
    values: Seq<P>,
    turns: Seq<ExportTurn<P>>,
)
    requires
        fresh(link),
        can_happen::<E, P>(ExportRun::start(link), from, turns),
        supplied_in(turns, link, from, values),
        all_harmless::<E, P>(ExportRun::start(link), link, turns),
        scheduled::<E, P>(ExportRun::start(link), turns).fed.len() < CREDIT_BYTES * values.len(),
    ensures
        ({
            let run = scheduled::<E, P>(ExportRun::start(link), turns);
            &&& run.link is Some
            &&& run.fed.is_prefix_of(credits(run.taken))
        }),
    decreases turns.len(),
{
    let start = ExportRun::<P>::start(link);
    if turns.len() > 0 {
        let rest = turns.drop_last();
        let run = scheduled::<E, P>(start, rest);
        assert(supplied_in(rest, link, from, values)) by {
            assert forall|i: int| 0 <= i < rest.len() implies ((
            #[trigger] rest[i]) matches ExportTurn::Event(v, input, encoding) ==> supplies(
                link,
                v,
                from,
                values,
            )) by {
                assert(turns[i] == rest[i]);
            }
        }
        assert(turns[turns.len() - 1] == turns.last());
        law_export_goes_on::<E, P>(link, from, values, rest);
        law_export_schedule::<E, P>(link, from, rest);
        lemma_all_taken::<E, P>(link, from, values, rest);
        lemma_goes_on::<E, P>(run, link, from, values, turns.last());
    } else {
        assert(start.fed =~= credits(start.taken));
    }
}

/// Whoever is told of an event of the schedule finds the grant revoked.
pub open spec fn revoked_in<P>(turns: Seq<ExportTurn<P>>, node: nat) -> bool {
    forall|i: int|
        0 <= i < turns.len() ==> ((#[trigger] turns[i]) matches ExportTurn::Event(
            v,
            input,
            encoding,
        ) ==> v.ledger.nodes[node as int].revoked)
}

/// A link that has ended, by a failure, by its peer or from outside, takes and writes
/// nothing more; nor does one whose grant is revoked between two polls, whatever comes.
pub proof fn law_export_cutoff<E: WireCodec, P: Carries<E::Payload>>(
    run: ExportRun<P>,
    from: u64,
    turns: Seq<ExportTurn<P>>,
)
    requires
        can_happen::<E, P>(run, from, turns),
        run.link matches Some(link) ==> run.between_polls() && revoked_in(turns, link.node),
    ensures
        ({
            let after = scheduled::<E, P>(run, turns);
            &&& after.written == run.written
            &&& after.taken == run.taken
            &&& after.credited == run.credited
            &&& after.link is None || after.link == run.link && after.between_polls()
            &&& run.link is None ==> after.link is None
        }),
    decreases turns.len(),
{
    if turns.len() > 0 {
        let rest = turns.drop_last();
        if run.link is Some {
            assert(revoked_in(rest, run.link->0.node)) by {
                assert forall|i: int| 0 <= i < rest.len() implies ((
                #[trigger] rest[i]) matches ExportTurn::Event(v, input, encoding)
                    ==> v.ledger.nodes[run.link->0.node as int].revoked) by {
                    assert(turns[i] == rest[i]);
                }
            }
        }
        law_export_cutoff::<E, P>(run, from, rest);
        let before = scheduled::<E, P>(run, rest);
        match turns.last() {
            ExportTurn::Event(v, input, encoding) => {
                if before.link is Some {
                    assert(turns[turns.len() - 1] == turns.last());
                    assert(v.ledger.nodes[run.link->0.node as int].revoked);
                    assert(input is Polled);
                    assert(before.written + before.link->0.outgoing().take(0) =~= before.written);
                }
            },
            _ => {},
        }
    }
}

/// The turn is one of those that end the link, whatever its stage: it is ended from outside
/// or polled after a revocation, the peer closes the control socket or sends what is no credit
/// of the frame that went out, a socket fails, or the data socket takes nothing.
pub open spec fn ends<P>(turn: ExportTurn<P>, link: ExportView) -> bool {
    match turn {
        ExportTurn::Cancel => true,
        ExportTurn::Event(v, input, encoding) => match input {
            ExportInput::Polled => v.ledger.nodes[link.node as int].revoked,
            ExportInput::ControlRead(data) => {
                ||| data.len() == 0
                ||| link.control.len() + data.len() >= CREDIT_BYTES && !link.accepts(
                    link.control + data,
                )
            },
            ExportInput::DataWritten(count) => count == 0,
            ExportInput::Failed(_) => true,
            _ => false,
        },
        _ => false,
    }
}

/// A turn that ends the link takes and writes nothing.
proof fn lemma_last_turn<E: WireCodec, P: Carries<E::Payload>>(
    run: ExportRun<P>,
    turn: ExportTurn<P>,
)
    requires
        run.link is Some,
        turned::<E, P>(run, turn).link is None,
    ensures
        turned::<E, P>(run, turn).written == run.written,
        turned::<E, P>(run, turn).taken == run.taken,
{
    let now = run.link->0;
    match turn {
        ExportTurn::Event(v, input, encoding) => {
            assert(run.written + now.outgoing().take(0) =~= run.written);
        },
        _ => {},
    }
}

/// Publications through an exporting link, by any schedule. While nothing ends it, the link
/// goes on; whenever it has gone as far as it can, the data socket has as much as it takes of
/// the frames of one publication more than whole credits have come; and its grant has in use
/// exactly what a link and a subscription take, where nothing else of the resource is charged.
/// Once a turn ends the link, whichever it is, nothing more is written or taken. Cancellation,
/// revocation, a failed or closed socket, and wrong credits end it, and leave nothing of its
/// own charged.
pub proof fn law_export_io<E: WireCodec, P: Carries<E::Payload>>(
    link: ExportView,
    from: u64,
    values: Seq<P>,
    encode: spec_fn(E::Payload) -> Seq<u8>,
    turns: Seq<ExportTurn<P>>,
    next: ExportTurn<P>,
    rest: Seq<ExportTurn<P>>,
    k: int,
)
    requires
        fresh(link),
        can_happen::<E, P>(ExportRun::start(link), from, turns),
        supplied_in(turns, link, from, values),
        all_harmless::<E, P>(ExportRun::start(link), link, turns),
        encodes_as::<E>(encode),
        scheduled::<E, P>(ExportRun::start(link), turns).fed.len() < CREDIT_BYTES * values.len(),
        possible::<E, P>(scheduled::<E, P>(ExportRun::start(link), turns), from, next),
        can_happen::<E, P>(
            turned::<E, P>(scheduled::<E, P>(ExportRun::start(link), turns), next),
            from,
            rest,
        ),
        0 <= k < RESOURCES,
    ensures
        ({
            let run = scheduled::<E, P>(ExportRun::start(link), turns);
            let then = turned::<E, P>(run, next);
            let after = scheduled::<E, P>(then, rest);
            let owed = wire::<E, P>(
                from,
                values,
                encode,
                (run.fed.len() / CREDIT_BYTES as nat + 1) as nat,
            );
            &&& run.link is Some
            &&& run.idle ==> run.written == owed.take(
                if run.permitted < owed.len() {
                    run.permitted as int
                } else {
                    owed.len() as int
                },
            )
            &&& next matches ExportTurn::Event(v, input, encoding) ==> (else_unused(
                v.ledger,
                link.node,
                k,
                link.lease,
                link.ticket,
            ) ==> v.ledger.nodes[link.node as int].used(k) == link_allowance(link.limit).get(k)
                + one_subscription().widened().get(k))
            &&& ends(next, run.link->0) ==> then.link is None
            &&& next matches ExportTurn::Event(v, input, encoding) ==> (ends(next, run.link->0)
                && else_unused(v.ledger, link.node, k, link.lease, link.ticket)
                ==> run.link->0.step(
                v,
                input,
                declared::<E, P>(),
                E::SCHEMA_REVISION,
                encoding,
            ).2.ledger.nodes[link.node as int].used(k) == 0)
            &&& then.link is None ==> {
                &&& after.written == run.written
                &&& after.taken == run.taken
                &&& after.link is None
            }
            &&& forall|v: FabricView<P>| #[trigger]
                run.link->0.held(v) && else_unused(
                    v.ledger,
                    link.node,
                    k,
                    link.lease,
                    link.ticket,
                ) ==> run.link->0.ended(v).ledger.nodes[link.node as int].used(k) == 0
        }),
{
    let run = scheduled::<E, P>(ExportRun::start(link), turns);
    let then = turned::<E, P>(run, next);
    law_export_schedule::<E, P>(link, from, turns);
    law_export_readiness::<E, P>(link, from, values, encode, turns);
    law_export_goes_on::<E, P>(link, from, values, turns);
    lemma_all_taken::<E, P>(link, from, values, turns);
    let now = run.link->0;
    match next {
        ExportTurn::Event(v, input, encoding) => {
            law_export_charged(now, v, k);
            if ends(next, now) {
                assert(now.step(v, input, declared::<E, P>(), E::SCHEMA_REVISION, encoding).2
                    == now.ended(v));
            }
        },
        _ => {},
    }
    if then.link is None {
        lemma_last_turn::<E, P>(run, next);
        law_export_cutoff::<E, P>(then, from, rest);
    }
    assert forall|v: FabricView<P>| #[trigger]
        now.held(v) && else_unused(v.ledger, link.node, k, link.lease, link.ticket) implies
        now.ended(v).ledger.nodes[link.node as int].used(k) == 0 by {
        law_export_ended(now, v, k);
    }
}

} // verus!
