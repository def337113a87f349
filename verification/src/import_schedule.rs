//! Importing links over whole schedules: what they have read, admitted and credited by any
//! order of socket readiness, and what they leave alone once they are cut off.
use crate::fabric::declared;
use crate::fabric_model::{Declaration, FabricView, SendVerdict};
use crate::grant::RESOURCES;
use crate::ipc::{
    credit_bytes, header_fault, header_length, header_revision, header_sequence, law_credit,
    link_allowance, LinkReply, CREDIT_BYTES, HEADER_BYTES,
};
use crate::link_charge_laws::{law_import_charged, law_import_ended};
use crate::payload::Carries;
use crate::unix_import::{explains, ImportInput, ImportOutcome, ImportStage, ImportView};
use crate::unix_link::{admits_once, else_unused, law_credit_means_admission};
use crate::wire::{WireCodec, WireError};
use vstd::prelude::*;

verus! {

/// Something that happens around an importing link.
pub enum ImportTurn<T, P> {
    /// The peer sends these bytes on the data socket.
    Feed(Seq<u8>),
    /// The control socket takes that many more bytes.
    Permit(nat),
    /// The link is told of an event. The fabric is as others have left it by then; the last
    /// part is what the codec makes of the bytes that the event completes.
    Event(FabricView<P>, ImportInput, Result<T, WireError>),
    /// The link is ended from outside.
    Cancel,
}

/// A frame that was admitted.
pub struct ImportFrame<T> {
    /// Its header and its payload.
    pub bytes: Seq<u8>,
    /// Its sequence.
    pub sequence: u64,
    /// The payload, decoded.
    pub value: T,
}

/// An importing link and its sockets, with all that has passed.
pub struct ImportRun<T, P> {
    /// The link, until it ends.
    pub link: Option<ImportView<T>>,
    /// What the link asked for last.
    pub reply: LinkReply,
    /// All that the peer has sent.
    pub fed: Seq<u8>,
    /// What the link has not read of that.
    pub unread: Seq<u8>,
    /// How much the control socket was ready to take in all.
    pub permitted: nat,
    /// What it has not taken of that.
    pub writable: nat,
    /// What the link has written on the control socket.
    pub written: Seq<u8>,
    /// What has been read of a frame that is not admitted.
    pub current: Seq<u8>,
    /// The frames that were admitted.
    pub admitted: Seq<ImportFrame<T>>,
    /// By how much the link has made its stream longer.
    pub published: int,
    /// The fabric as the link was last told of an event.
    pub seen: Option<FabricView<P>>,
    /// The link has gone as far as it can with the sockets as they are.
    pub idle: bool,
}

/// The credits of frames, one after the other.
pub open spec fn credits<T>(frames: Seq<ImportFrame<T>>) -> Seq<u8>
    decreases frames.len(),
{
    if frames.len() == 0 {
        Seq::empty()
    } else {
        credits(frames.drop_last()) + credit_bytes(frames.last().sequence)
    }
}

/// The bytes of frames, one after the other.
pub open spec fn frames_bytes<T>(frames: Seq<ImportFrame<T>>) -> Seq<u8>
    decreases frames.len(),
{
    if frames.len() == 0 {
        Seq::empty()
    } else {
        frames_bytes(frames.drop_last()) + frames.last().bytes
    }
}

/// The bytes begin with a header of the link's own event, for that sequence.
pub open spec fn headed(
    bytes: Seq<u8>,
    declaration: Declaration,
    limit: nat,
    sequence: u64,
) -> bool {
    let header = bytes.take(HEADER_BYTES as int);
    &&& bytes.len() >= HEADER_BYTES
    &&& header_fault(header, declaration.event, declaration.wire_major, limit) is None
    &&& header_sequence(header) == sequence
}

/// The bytes are a whole frame whose payload decodes to `value`.
pub open spec fn carries<E: WireCodec, P: Carries<E::Payload>>(
    bytes: Seq<u8>,
    limit: nat,
    sequence: u64,
    value: E::Payload,
) -> bool {
    let header = bytes.take(HEADER_BYTES as int);
    &&& headed(bytes, declared::<E, P>(), limit, sequence)
    &&& bytes.len() == HEADER_BYTES + header_length(header)
    &&& E::decodes(
        bytes.skip(HEADER_BYTES as int),
        header_revision(header),
        Ok::<E::Payload, WireError>(value),
    )
}

impl<T, P> ImportRun<T, P> {
    /// A link that was just bound, with nothing on its sockets.
    pub open spec fn start(link: ImportView<T>) -> ImportRun<T, P> {
        ImportRun {
            link: Some(link),
            reply: LinkReply::Yield,
            fed: Seq::empty(),
            unread: Seq::empty(),
            permitted: 0,
            writable: 0,
            written: Seq::empty(),
            current: Seq::empty(),
            admitted: Seq::empty(),
            published: 0,
            seen: None,
            idle: false,
        }
    }

    /// The link waits to be polled.
    pub open spec fn between_polls(self) -> bool {
        self.reply is Pending || self.reply is Yield
    }

    /// The sockets can answer so what the link asked for last.
    pub open spec fn answers(self, input: ImportInput) -> bool {
        match input {
            ImportInput::Polled => self.between_polls(),
            ImportInput::ControlPending => self.reply is PollControl,
            ImportInput::ControlRead(_) => self.reply is PollControl,
            ImportInput::DataRead(data) => {
                &&& self.reply matches LinkReply::Read(wanted) && data.len() <= wanted
                &&& data.is_prefix_of(self.unread)
            },
            ImportInput::CreditWritten(count) => self.reply is Write && count <= self.writable,
            ImportInput::SocketPending => {
                ||| self.reply is Read && self.unread.len() == 0
                ||| self.reply is Write && self.writable == 0
            },
            ImportInput::Failed(_) => !self.between_polls(),
        }
    }
}

/// The turn can come next: the link is told only what its sockets answer and what its codec
/// makes of the bytes, and nobody takes from it what it holds.
pub open spec fn possible<E: WireCodec, P: Carries<E::Payload>>(
    run: ImportRun<E::Payload, P>,
    turn: ImportTurn<E::Payload, P>,
) -> bool {
    match turn {
        ImportTurn::Event(v, input, decoded) => run.link matches Some(link) ==> {
            &&& run.answers(input)
            &&& link.expects(input)
            &&& explains::<E>(link.completes(input, declared::<E, P>()), decoded)
            &&& link.held(v)
        },
        _ => true,
    }
}

/// The frame that a step admits, if it admits one.
pub open spec fn admits<T>(
    link: ImportView<T>,
    current: Seq<u8>,
    decoded: Result<T, WireError>,
    next: Option<ImportView<T>>,
) -> Option<ImportFrame<T>> {
    match next {
        Some(now) => match now.stage {
            ImportStage::Credit(sequence, _) => if link.stage is Credit {
                None
            } else {
                Some(
                    ImportFrame {
                        bytes: current,
                        sequence,
                        value: match link.stage {
                            ImportStage::Sending(_, value, _) => value,
                            _ => decoded->Ok_0,
                        },
                    },
                )
            },
            _ => None,
        },
        None => None,
    }
}

/// What an event leaves that has that outcome.
pub open spec fn followed<T, P>(
    run: ImportRun<T, P>,
    link: ImportView<T>,
    v: FabricView<P>,
    input: ImportInput,
    decoded: Result<T, WireError>,
    outcome: ImportOutcome<T, P>,
) -> ImportRun<T, P> {
    let (reply, next, after) = outcome;
    let taken = match input {
        ImportInput::CreditWritten(count) => count,
        _ => 0,
    };
    let current = run.current + data_of(input);
    let frame = admits(link, current, decoded, next);
    ImportRun {
        link: next,
        reply,
        unread: run.unread.skip(data_of(input).len() as int),
        writable: (run.writable - taken) as nat,
        written: run.written + link.outgoing().take(taken as int),
        current: if frame is Some {
            Seq::empty()
        } else {
            current
        },
        admitted: match frame {
            Some(frame) => run.admitted.push(frame),
            None => run.admitted,
        },
        published: run.published + after.streams[link.stream as int].tail
            - v.streams[link.stream as int].tail,
        seen: Some(v),
        idle: reply is Pending,
        ..run
    }
}

/// The bytes of the data socket that come with an event.
pub open spec fn data_of(input: ImportInput) -> Seq<u8> {
    match input {
        ImportInput::DataRead(data) => data,
        _ => Seq::empty(),
    }
}

/// What one turn leaves.
pub open spec fn turned<E: WireCodec, P: Carries<E::Payload>>(
    run: ImportRun<E::Payload, P>,
    turn: ImportTurn<E::Payload, P>,
) -> ImportRun<E::Payload, P> {
    match turn {
        ImportTurn::Feed(bytes) => ImportRun {
            fed: run.fed + bytes,
            unread: run.unread + bytes,
            idle: false,
            ..run
        },
        ImportTurn::Permit(count) => ImportRun {
            permitted: run.permitted + count,
            writable: run.writable + count,
            idle: false,
            ..run
        },
        ImportTurn::Cancel => ImportRun { link: None, idle: false, ..run },
        ImportTurn::Event(v, input, decoded) => match run.link {
            None => run,
            Some(link) => followed(
                run,
                link,
                v,
                input,
                decoded,
                link.step(v, input, declared::<E, P>(), decoded),
            ),
        },
    }
}

/// A run after a schedule.
pub open spec fn scheduled<E: WireCodec, P: Carries<E::Payload>>(
    run: ImportRun<E::Payload, P>,
    turns: Seq<ImportTurn<E::Payload, P>>,
) -> ImportRun<E::Payload, P>
    decreases turns.len(),
{
    if turns.len() == 0 {
        run
    } else {
        turned::<E, P>(scheduled::<E, P>(run, turns.drop_last()), turns.last())
    }
}

/// Every turn of the schedule can come where it stands.
pub open spec fn can_happen<E: WireCodec, P: Carries<E::Payload>>(
    run: ImportRun<E::Payload, P>,
    turns: Seq<ImportTurn<E::Payload, P>>,
) -> bool
    decreases turns.len(),
{
    turns.len() > 0 ==> {
        &&& can_happen::<E, P>(run, turns.drop_last())
        &&& possible::<E, P>(scheduled::<E, P>(run, turns.drop_last()), turns.last())
    }
}

/// What has been read of the frame in hand is what the stage of the link says.
pub open spec fn in_hand<E: WireCodec, P: Carries<E::Payload>>(
    link: ImportView<E::Payload>,
    current: Seq<u8>,
    limit: nat,
) -> bool {
    let header = current.take(HEADER_BYTES as int);
    match link.stage {
        ImportStage::Header(bytes) => bytes == current && bytes.len() < HEADER_BYTES,
        ImportStage::Payload(sequence, revision, length, bytes) => {
            &&& headed(current, declared::<E, P>(), limit, sequence)
            &&& link.follows(sequence)
            &&& revision == header_revision(header)
            &&& length == header_length(header)
            &&& bytes == current.skip(HEADER_BYTES as int)
            &&& bytes.len() < length
        },
        ImportStage::Sending(sequence, value, _) => {
            &&& carries::<E, P>(current, limit, sequence, value)
            &&& link.follows(sequence)
        },
        ImportStage::Credit(_, written) => current.len() == 0 && written < CREDIT_BYTES,
    }
}

/// Each frame is whole and carries its value, and the sequences follow one another.
pub open spec fn in_order<E: WireCodec, P: Carries<E::Payload>>(
    frames: Seq<ImportFrame<E::Payload>>,
    limit: nat,
) -> bool {
    &&& forall|i: int|
        0 <= i < frames.len() ==> carries::<E, P>(
            (#[trigger] frames[i]).bytes,
            limit,
            frames[i].sequence,
            frames[i].value,
        )
    &&& forall|i: int|
        0 < i < frames.len() ==> (#[trigger] frames[i]).sequence == frames[i - 1].sequence + 1
}

/// What holds at every point of a schedule: all that was read is in the frames admitted and
/// the one in hand, all that was written is credits of frames admitted, each frame was
/// published once, and the sequences follow one another.
pub open spec fn accounted<E: WireCodec, P: Carries<E::Payload>>(
    run: ImportRun<E::Payload, P>,
    limit: nat,
) -> bool {
    &&& run.fed == frames_bytes(run.admitted) + run.current + run.unread
    &&& run.permitted == run.written.len() + run.writable
    &&& run.published == run.admitted.len()
    &&& in_order::<E, P>(run.admitted, limit)
    &&& match run.link {
        Some(link) => {
            &&& link.limit == limit
            &&& link.previous == if run.admitted.len() == 0 {
                None
            } else {
                Some(run.admitted.last().sequence)
            }
            &&& in_hand::<E, P>(link, run.current, limit)
            &&& link.stage matches ImportStage::Credit(sequence, _) ==> run.admitted.len() > 0
                && sequence == run.admitted.last().sequence
            &&& run.written + link.outgoing() == credits(run.admitted)
            &&& run.reply is Read ==> link.stage is Header || link.stage is Payload
            &&& run.reply is Write ==> link.stage is Credit
            &&& run.idle ==> run.seen is Some && stuck(
                link,
                run.unread,
                run.writable,
                run.seen->0,
            )
        },
        None => run.written.is_prefix_of(credits(run.admitted)),
    }
}

/// The stream has no room for the payload, but may have some later.
pub open spec fn waits<T, P: Carries<T>>(link: ImportView<T>, v: FabricView<P>, value: T) -> bool {
    v.send_now(link.stream, link.node, P::carried(value)).0 matches Some(refusal)
        && refusal.transient()
}

/// The link can go on with neither socket: it has read all there is, or its stream has no
/// room, or the control socket takes nothing.
pub open spec fn stuck<T, P: Carries<T>>(
    link: ImportView<T>,
    unread: Seq<u8>,
    writable: nat,
    v: FabricView<P>,
) -> bool {
    match link.stage {
        ImportStage::Header(_) => unread.len() == 0,
        ImportStage::Payload(_, _, _, _) => unread.len() == 0,
        ImportStage::Sending(_, value, _) => waits(link, v, value),
        ImportStage::Credit(_, _) => writable == 0,
    }
}

proof fn lemma_credits_len<T>(frames: Seq<ImportFrame<T>>)
    ensures
        credits(frames).len() == CREDIT_BYTES * frames.len(),
    decreases frames.len(),
{
    if frames.len() > 0 {
        lemma_credits_len(frames.drop_last());
        law_credit(frames.last().sequence, 0);
    }
}

/// One more frame has one more credit.
proof fn lemma_push<T>(frames: Seq<ImportFrame<T>>, frame: ImportFrame<T>)
    ensures
        credits(frames.push(frame)) == credits(frames) + credit_bytes(frame.sequence),
        frames_bytes(frames.push(frame)) == frames_bytes(frames) + frame.bytes,
{
    assert(frames.push(frame).drop_last() =~= frames);
}

/// An attempt to admit the frame in hand keeps the account.
proof fn lemma_attempted<E: WireCodec, P: Carries<E::Payload>>(
    run: ImportRun<E::Payload, P>,
    link: ImportView<E::Payload>,
    at: ImportView<E::Payload>,
    limit: nat,
    v: FabricView<P>,
    input: ImportInput,
    decoded: Result<E::Payload, WireError>,
    sequence: u64,
    value: E::Payload,
    verdict: SendVerdict<P>,
    after: FabricView<P>,
)
    requires
        run.link == Some(link),
        accounted::<E, P>(run, limit),
        run.answers(input),
        !(link.stage is Credit),
        at.limit == limit,
        at.previous == link.previous,
        at.follows(sequence),
        carries::<E, P>(run.current + data_of(input), limit, sequence, value),
        admits_once(link, v, at.attempted(after, sequence, value, verdict)),
        verdict is Waiting ==> waits(at, v, value),
        value == match link.stage {
            ImportStage::Sending(_, value, _) => value,
            _ => decoded->Ok_0,
        },
        !(input is CreditWritten),
    ensures
        accounted::<E, P>(
            followed(run, link, v, input, decoded, at.attempted(after, sequence, value, verdict)),
            limit,
        ),
{
    let outcome = at.attempted(after, sequence, value, verdict);
    let next = followed(run, link, v, input, decoded, outcome);
    let frame = ImportFrame { bytes: run.current + data_of(input), sequence, value };
    lemma_read(run, input);
    assert(link.outgoing() == Seq::<u8>::empty());
    assert(run.written + link.outgoing() =~= run.written);
    assert(run.written + link.outgoing().take(0) =~= run.written);
    match verdict {
        SendVerdict::Sent => {
            law_credit(sequence, sequence);
            lemma_push(run.admitted, frame);
            let now = next.link->0;
            assert(now.outgoing() =~= credit_bytes(sequence));
            assert(next.admitted == run.admitted.push(frame));
            assert(next.admitted.last() == frame);
            assert(next.fed =~= frames_bytes(next.admitted) + next.current + next.unread);
            lemma_pushed::<E, P>(run.admitted, frame, limit);
            assert(next.written + now.outgoing() =~= credits(next.admitted));
        },
        SendVerdict::Rejected(error) => {
            assert(next.written.is_prefix_of(credits(next.admitted)));
        },
        SendVerdict::Waiting(ticket) => {
            let now = next.link->0;
            assert(now.outgoing() == Seq::<u8>::empty());
            assert(next.written + now.outgoing() =~= credits(next.admitted));
        },
    }
}

/// One more frame that follows the last is in order.
proof fn lemma_pushed<E: WireCodec, P: Carries<E::Payload>>(
    frames: Seq<ImportFrame<E::Payload>>,
    frame: ImportFrame<E::Payload>,
    limit: nat,
)
    requires
        in_order::<E, P>(frames, limit),
        carries::<E, P>(frame.bytes, limit, frame.sequence, frame.value),
        frames.len() > 0 ==> frames.last().sequence + 1 == frame.sequence,
    ensures
        in_order::<E, P>(frames.push(frame), limit),
{
    let longer = frames.push(frame);
    assert forall|i: int| 0 <= i < longer.len() implies carries::<E, P>(
        (#[trigger] longer[i]).bytes,
        limit,
        longer[i].sequence,
        longer[i].value,
    ) by {
        if i < frames.len() {
            assert(longer[i] == frames[i]);
        }
    }
    assert forall|i: int| 0 < i < longer.len() implies (#[trigger] longer[i]).sequence == longer[i
        - 1].sequence + 1 by {
        if i < frames.len() {
            assert(frames[i].sequence == frames[i - 1].sequence + 1);
        } else {
            assert(longer[i - 1] == frames.last());
        }
    }
}

/// What is read leaves what is unread.
proof fn lemma_read<T, P>(run: ImportRun<T, P>, input: ImportInput)
    requires
        run.fed == frames_bytes(run.admitted) + run.current + run.unread,
        run.answers(input),
    ensures
        run.fed == frames_bytes(run.admitted) + (run.current + data_of(input)) + run.unread.skip(
            data_of(input).len() as int,
        ),
{
    let data = data_of(input);
    assert(run.unread =~= data + run.unread.skip(data.len() as int));
    assert(run.fed =~= frames_bytes(run.admitted) + (run.current + data) + run.unread.skip(
        data.len() as int,
    ));
}

/// An event that admits nothing and writes nothing keeps the account.
proof fn lemma_quiet<E: WireCodec, P: Carries<E::Payload>>(
    run: ImportRun<E::Payload, P>,
    link: ImportView<E::Payload>,
    limit: nat,
    v: FabricView<P>,
    input: ImportInput,
    decoded: Result<E::Payload, WireError>,
)
    requires
        run.link == Some(link),
        accounted::<E, P>(run, limit),
        possible::<E, P>(run, ImportTurn::Event(v, input, decoded)),
        !(input is CreditWritten),
        ({
            let (reply, next, after) = link.step(v, input, declared::<E, P>(), decoded);
            &&& after.streams[link.stream as int].tail == v.streams[link.stream as int].tail
            &&& next matches Some(now) ==> {
                &&& admits(link, run.current, decoded, next) is None
                &&& now.limit == link.limit
                &&& now.previous == link.previous
                &&& now.outgoing() == link.outgoing()
                &&& in_hand::<E, P>(
                    now,
                    run.current + data_of(input),
                    limit,
                )
                &&& now.stage is Credit ==> now.stage == link.stage
                &&& reply is Read ==> now.stage is Header || now.stage is Payload
                &&& reply is Write ==> now.stage is Credit
                &&& reply is Pending ==> stuck(now, run.unread, run.writable, v)
            }
        }),
    ensures
        accounted::<E, P>(turned::<E, P>(run, ImportTurn::Event(v, input, decoded)), limit),
{
    let next = turned::<E, P>(run, ImportTurn::Event(v, input, decoded));
    lemma_read(run, input);
    assert(run.written + link.outgoing().take(0) =~= run.written);
    if next.link is None {
        assert(next.written.is_prefix_of(credits(next.admitted)));
    }
}

/// The write of a credit keeps the account.
proof fn lemma_wrote<E: WireCodec, P: Carries<E::Payload>>(
    run: ImportRun<E::Payload, P>,
    link: ImportView<E::Payload>,
    limit: nat,
    v: FabricView<P>,
    count: nat,
    decoded: Result<E::Payload, WireError>,
)
    requires
        run.link == Some(link),
        accounted::<E, P>(run, limit),
        possible::<E, P>(run, ImportTurn::Event(v, ImportInput::CreditWritten(count), decoded)),
    ensures
        accounted::<E, P>(
            turned::<E, P>(run, ImportTurn::Event(v, ImportInput::CreditWritten(count), decoded)),
            limit,
        ),
{
    let input = ImportInput::CreditWritten(count);
    let next = turned::<E, P>(run, ImportTurn::Event(v, input, decoded));
    let all = link.outgoing();
    lemma_read(run, input);
    assert(run.current + Seq::<u8>::empty() =~= run.current);
    match link.stage {
        ImportStage::Credit(sequence, written) => {
            law_credit(sequence, sequence);
            let left = all.skip(count as int);
            assert(all =~= all.take(count as int) + left);
            assert(next.written + left =~= run.written + all);
            if next.link is Some {
                assert(next.link->0.outgoing() =~= left);
                assert(next.written + next.link->0.outgoing() == credits(next.admitted));
            } else {
                assert(next.written =~= run.written);
                assert(next.written.is_prefix_of(credits(next.admitted)));
            }
        },
        _ => {},
    }
}

/// Bytes of the data socket keep the account.
proof fn lemma_data<E: WireCodec, P: Carries<E::Payload>>(
    run: ImportRun<E::Payload, P>,
    link: ImportView<E::Payload>,
    limit: nat,
    v: FabricView<P>,
    data: Seq<u8>,
    decoded: Result<E::Payload, WireError>,
)
    requires
        run.link == Some(link),
        accounted::<E, P>(run, limit),
        possible::<E, P>(run, ImportTurn::Event(v, ImportInput::DataRead(data), decoded)),
    ensures
        accounted::<E, P>(
            turned::<E, P>(run, ImportTurn::Event(v, ImportInput::DataRead(data), decoded)),
            limit,
        ),
{
    let d = declared::<E, P>();
    let input = ImportInput::DataRead(data);
    law_credit_means_admission(link, v, input, d, decoded);
    let current = run.current + data;
    let header = current.take(HEADER_BYTES as int);
    if data.len() == 0 {
        lemma_quiet::<E, P>(run, link, limit, v, input, decoded);
    } else {
        match link.stage {
            ImportStage::Header(bytes) => {
                if current.len() < HEADER_BYTES {
                    lemma_quiet::<E, P>(run, link, limit, v, input, decoded);
                } else {
                    assert(header =~= current);
                    assert(current.skip(HEADER_BYTES as int) =~= Seq::empty());
                    let at = link.at(ImportStage::Header(Seq::empty()));
                    let sequence = header_sequence(header);
                    let fault = header_fault(header, d.event, d.wire_major, limit);
                    if fault is None && link.follows(sequence) && header_length(header) == 0
                        && decoded is Ok {
                        let value = decoded->Ok_0;
                        let (verdict, after) = v.send_first(
                            link.stream,
                            link.node,
                            P::carried(value),
                        );
                        lemma_attempted::<E, P>(
                            run,
                            link,
                            at,
                            limit,
                            v,
                            input,
                            decoded,
                            sequence,
                            value,
                            verdict,
                            after,
                        );
                    } else {
                        lemma_quiet::<E, P>(run, link, limit, v, input, decoded);
                    }
                }
            },
            ImportStage::Payload(sequence, revision, length, bytes) => {
                assert(header =~= run.current.take(HEADER_BYTES as int));
                assert(current.skip(HEADER_BYTES as int) =~= bytes + data);
                if bytes.len() + data.len() == length && decoded is Ok {
                    let value = decoded->Ok_0;
                    let (verdict, after) = v.send_first(
                            link.stream,
                            link.node,
                            P::carried(value),
                        );
                    lemma_attempted::<E, P>(
                        run,
                        link,
                        link,
                        limit,
                        v,
                        input,
                        decoded,
                        sequence,
                        value,
                        verdict,
                        after,
                    );
                } else {
                    lemma_quiet::<E, P>(run, link, limit, v, input, decoded);
                }
            },
            _ => {},
        }
    }
}

/// One event keeps the account.
proof fn lemma_event<E: WireCodec, P: Carries<E::Payload>>(
    run: ImportRun<E::Payload, P>,
    link: ImportView<E::Payload>,
    limit: nat,
    v: FabricView<P>,
    input: ImportInput,
    decoded: Result<E::Payload, WireError>,
)
    requires
        run.link == Some(link),
        accounted::<E, P>(run, limit),
        possible::<E, P>(run, ImportTurn::Event(v, input, decoded)),
    ensures
        accounted::<E, P>(turned::<E, P>(run, ImportTurn::Event(v, input, decoded)), limit),
{
    assert(run.current + Seq::<u8>::empty() =~= run.current);
    match input {
        ImportInput::DataRead(data) => lemma_data::<E, P>(run, link, limit, v, data, decoded),
        ImportInput::CreditWritten(count) => lemma_wrote::<E, P>(run, link, limit, v, count, decoded),
        ImportInput::ControlPending => match link.stage {
            ImportStage::Sending(sequence, value, ticket) => {
                law_credit_means_admission(link, v, input, declared::<E, P>(), decoded);
                let (verdict, after) = v.send_again(
                    link.stream,
                    link.node,
                    P::carried(value),
                    ticket,
                );
                lemma_attempted::<E, P>(
                    run,
                    link,
                    link,
                    limit,
                    v,
                    input,
                    decoded,
                    sequence,
                    value,
                    verdict,
                    after,
                );
            },
            _ => lemma_quiet::<E, P>(run, link, limit, v, input, decoded),
        },
        _ => lemma_quiet::<E, P>(run, link, limit, v, input, decoded),
    }
}

/// A link that was just bound: no frame has come.
pub open spec fn fresh<T>(link: ImportView<T>) -> bool {
    link.stage == ImportStage::<T>::Header(Seq::empty()) && link.previous is None
}

/// By any schedule of what the peer sends, what the control socket takes, and how the link
/// is told of it, a link has read whole frames in sequence and part of one more; each was
/// published once; and it has written their credits and nothing else, of each only after
/// its frame was admitted.
pub proof fn law_import_schedule<E: WireCodec, P: Carries<E::Payload>>(
    link: ImportView<E::Payload>,
    turns: Seq<ImportTurn<E::Payload, P>>,
)
    requires
        fresh(link),
        can_happen::<E, P>(ImportRun::start(link), turns),
    ensures
        accounted::<E, P>(scheduled::<E, P>(ImportRun::start(link), turns), link.limit),
    decreases turns.len(),
{
    let start = ImportRun::start(link);
    if turns.len() == 0 {
        assert(start.fed =~= frames_bytes(start.admitted) + start.current + start.unread);
        assert(start.written + link.outgoing() =~= credits(start.admitted));
    } else {
        law_import_schedule::<E, P>(link, turns.drop_last());
        let run = scheduled::<E, P>(start, turns.drop_last());
        let next = turned::<E, P>(run, turns.last());
        match turns.last() {
            ImportTurn::Event(v, input, decoded) => {
                if run.link is Some {
                    lemma_event::<E, P>(run, run.link->0, link.limit, v, input, decoded);
                }
            },
            ImportTurn::Feed(bytes) => {
                assert(next.fed =~= frames_bytes(next.admitted) + next.current + next.unread);
            },
            ImportTurn::Permit(count) => {},
            ImportTurn::Cancel => {
                if run.link is Some {
                    assert(run.written.is_prefix_of(credits(run.admitted)));
                }
            },
        }
    }
}

/// Whenever a link has gone as far as it can, the control socket has had as much of the
/// credits of all admitted frames as it takes: nothing before the first frame is admitted,
/// and then all of it up to what was permitted. Unless it waits for its stream or for the
/// control socket, the link has read all that the peer has sent.
pub proof fn law_import_settled<E: WireCodec, P: Carries<E::Payload>>(
    link: ImportView<E::Payload>,
    turns: Seq<ImportTurn<E::Payload, P>>,
)
    requires
        fresh(link),
        can_happen::<E, P>(ImportRun::start(link), turns),
    ensures
        ({
            let run = scheduled::<E, P>(ImportRun::start(link), turns);
            let owed = (CREDIT_BYTES * run.admitted.len()) as nat;
            &&& credits(run.admitted).len() == owed
            &&& run.written.is_prefix_of(credits(run.admitted))
            &&& run.idle && run.link is Some ==> {
                &&& run.written == credits(run.admitted).take(
                    if run.permitted < owed {
                        run.permitted as int
                    } else {
                        owed as int
                    },
                )
                &&& run.link->0.stage is Header || run.link->0.stage is Payload ==> run.fed
                    == frames_bytes(run.admitted) + run.current
            }
        }),
{
    law_import_schedule::<E, P>(link, turns);
    let run = scheduled::<E, P>(ImportRun::start(link), turns);
    lemma_credits_len(run.admitted);
    if run.link is Some {
        let now = run.link->0;
        assert(run.written.is_prefix_of(credits(run.admitted)));
        if run.idle {
            if now.stage is Credit {
                law_credit(now.stage->Credit_0, 0);
                assert(run.written =~= credits(run.admitted).take(run.permitted as int));
            } else {
                assert(now.outgoing() == Seq::<u8>::empty());
                let all = credits(run.admitted);
                assert(run.written =~= all);
                assert(all.take(all.len() as int) =~= all);
            }
            if now.stage is Header || now.stage is Payload {
                assert(run.fed =~= frames_bytes(run.admitted) + run.current);
            }
        }
    }
}

/// The first frame comes first on the wire.
proof fn lemma_first_frame<T>(frames: Seq<ImportFrame<T>>)
    requires
        frames.len() > 0,
    ensures
        frames[0].bytes.is_prefix_of(frames_bytes(frames)),
        frames.len() > 1 ==> frames_bytes(frames).len() >= frames[0].bytes.len()
            + frames.last().bytes.len(),
    decreases frames.len(),
{
    if frames.len() > 1 {
        lemma_first_frame(frames.drop_last());
    } else {
        assert(frames_bytes(frames.drop_last()).len() == 0);
        assert(frames_bytes(frames) =~= frames[0].bytes);
    }
}

/// By any schedule in which the peer sends one frame, in whatever pieces, nothing is written
/// before the whole frame was read and the stream had room for it. From then on the control
/// socket has as much of the one credit as it takes. A link that has gone as far as it can
/// and has read the whole frame has admitted it, unless the stream as it last found it had no
/// room.
pub proof fn law_import_one_frame<E: WireCodec, P: Carries<E::Payload>>(
    link: ImportView<E::Payload>,
    turns: Seq<ImportTurn<E::Payload, P>>,
    frame: Seq<u8>,
    sequence: u64,
)
    requires
        fresh(link),
        can_happen::<E, P>(ImportRun::start(link), turns),
        headed(frame, declared::<E, P>(), link.limit, sequence),
        frame.len() == HEADER_BYTES + header_length(frame.take(HEADER_BYTES as int)),
        scheduled::<E, P>(ImportRun::start(link), turns).fed.is_prefix_of(frame),
    ensures
        ({
            let run = scheduled::<E, P>(ImportRun::start(link), turns);
            let credit = credit_bytes(sequence);
            &&& run.admitted.len() <= 1
            &&& run.published == run.admitted.len()
            &&& run.admitted.len() == 0 ==> run.written.len() == 0
            &&& run.admitted.len() == 1 ==> {
                &&& run.fed == frame
                &&& carries::<E, P>(frame, link.limit, sequence, run.admitted[0].value)
                &&& run.written.is_prefix_of(credit)
                &&& run.idle && run.link is Some ==> run.written == credit.take(
                    if run.permitted < CREDIT_BYTES {
                        run.permitted as int
                    } else {
                        CREDIT_BYTES as int
                    },
                )
            }
            &&& run.idle && run.link is Some && run.fed == frame && run.admitted.len() == 0 ==> {
                &&& run.seen is Some
                &&& run.link->0.stage matches ImportStage::Sending(q, value, _)
                &&& q == sequence
                &&& carries::<E, P>(frame, link.limit, sequence, value)
                &&& waits(run.link->0, run.seen->0, value)
            }
        }),
{
    let run = scheduled::<E, P>(ImportRun::start(link), turns);
    law_import_schedule::<E, P>(link, turns);
    law_import_settled::<E, P>(link, turns);
    lemma_credits_len(run.admitted);
    law_credit(sequence, sequence);
    if run.admitted.len() > 0 {
        let first = run.admitted[0];
        lemma_first_frame(run.admitted);
        assert(carries::<E, P>(first.bytes, link.limit, first.sequence, first.value));
        assert(first.bytes.is_prefix_of(run.fed));
        assert(first.bytes.take(HEADER_BYTES as int) =~= frame.take(HEADER_BYTES as int)) by {
            assert forall|i: int| 0 <= i < HEADER_BYTES implies first.bytes[i] == frame[i] by {
                assert(first.bytes[i] == run.fed[i]);
                assert(run.fed[i] == frame[i]);
            }
        }
        assert(first.bytes.len() == frame.len());
        assert(run.fed =~= frame);
        assert(first.bytes =~= frame);
        if run.admitted.len() > 1 {
            let last = run.admitted.last();
            assert(run.admitted[run.admitted.len() - 1] == last);
            assert(carries::<E, P>(last.bytes, link.limit, last.sequence, last.value));
        }
        assert(run.admitted.drop_last() =~= Seq::empty());
        assert(credits(run.admitted) =~= credit_bytes(sequence));
    } else if run.idle && run.link is Some && run.fed == frame {
        let now = run.link->0;
        let header = frame.take(HEADER_BYTES as int);
        assert(frames_bytes(run.admitted) =~= Seq::empty());
        assert(run.fed =~= run.current + run.unread);
        match now.stage {
            ImportStage::Header(bytes) => {},
            ImportStage::Payload(_, _, length, bytes) => {
                assert(run.current =~= frame);
            },
            ImportStage::Sending(_, value, _) => {
                assert(run.current.take(HEADER_BYTES as int) =~= header);
                assert(run.current =~= frame);
            },
            ImportStage::Credit(_, _) => {},
        }
    }
}

/// Nothing in the turn ends the link: the grant is in force, the control socket stays open and
/// silent, no socket fails, the codec takes the payload, and the stream rejects nothing for
/// good.
pub open spec fn harmless<T, P: Carries<T>>(turn: ImportTurn<T, P>, link: ImportView<T>) -> bool {
    match turn {
        ImportTurn::Cancel => false,
        ImportTurn::Event(v, input, decoded) => {
            &&& !v.ledger.nodes[link.node as int].revoked
            &&& !(input is ControlRead)
            &&& !(input is Failed)
            &&& input matches ImportInput::DataRead(data) ==> data.len() > 0
            &&& input matches ImportInput::CreditWritten(count) ==> count > 0
            &&& decoded is Ok
            &&& forall|value: T|
                !((#[trigger] v.send_first(link.stream, link.node, P::carried(value))).0
                    is Rejected)
            &&& forall|value: T, ticket: nat|
                !((#[trigger] v.send_again(
                    link.stream,
                    link.node,
                    P::carried(value),
                    ticket,
                )).0 is Rejected)
        },
        _ => true,
    }
}

/// The link is still there, for the same stream and the same grant.
spec fn goes_on<T, P>(run: ImportRun<T, P>, link: ImportView<T>) -> bool {
    &&& run.link matches Some(now)
    &&& now.stream == link.stream
    &&& now.node == link.node
    &&& now.lease == link.lease
}

/// A harmless turn lets the link go on with the one frame that the peer sends.
proof fn lemma_goes_on<E: WireCodec, P: Carries<E::Payload>>(
    run: ImportRun<E::Payload, P>,
    link: ImportView<E::Payload>,
    frame: Seq<u8>,
    sequence: u64,
    turn: ImportTurn<E::Payload, P>,
)
    requires
        goes_on(run, link),
        accounted::<E, P>(run, link.limit),
        possible::<E, P>(run, turn),
        harmless(turn, link),
        headed(frame, declared::<E, P>(), link.limit, sequence),
        run.fed.is_prefix_of(frame),
        run.admitted.len() > 0 ==> frames_bytes(run.admitted).len() >= frame.len(),
    ensures
        goes_on(turned::<E, P>(run, turn), link),
{
    let now = run.link->0;
    match turn {
        ImportTurn::Event(v, input, decoded) => {
            let value = decoded->Ok_0;
            assert(!(v.send_first(link.stream, link.node, P::carried(value)).0 is Rejected));
            match input {
                ImportInput::DataRead(data) => {
                    let header = run.current + data;
                    assert(run.admitted.len() == 0);
                    assert(frames_bytes(run.admitted) =~= Seq::empty());
                    assert(run.fed =~= run.current + run.unread);
                    if now.stage is Header && header.len() == HEADER_BYTES {
                        assert(header =~= frame.take(HEADER_BYTES as int)) by {
                            assert forall|i: int| 0 <= i < HEADER_BYTES implies header[i]
                                == frame[i] by {
                                if i >= run.current.len() {
                                    assert(data[i - run.current.len()] == run.unread[i
                                        - run.current.len()]);
                                }
                                assert(header[i] == run.fed[i]);
                                assert(run.fed[i] == frame[i]);
                            }
                        }
                    }
                },
                ImportInput::ControlPending => {
                    if now.stage is Sending {
                        let kept = now.stage->Sending_1;
                        let ticket = now.stage->Sending_2;
                        assert(!(v.send_again(
                            link.stream,
                            link.node,
                            P::carried(kept),
                            ticket,
                        ).0 is Rejected));
                    }
                },
                _ => {},
            }
        },
        _ => {},
    }
}

/// A link to which the peer sends one frame goes on by any schedule of harmless turns.
pub proof fn law_import_goes_on<E: WireCodec, P: Carries<E::Payload>>(
    link: ImportView<E::Payload>,
    turns: Seq<ImportTurn<E::Payload, P>>,
    frame: Seq<u8>,
    sequence: u64,
)
    requires
        fresh(link),
        can_happen::<E, P>(ImportRun::start(link), turns),
        headed(frame, declared::<E, P>(), link.limit, sequence),
        frame.len() == HEADER_BYTES + header_length(frame.take(HEADER_BYTES as int)),
        scheduled::<E, P>(ImportRun::start(link), turns).fed.is_prefix_of(frame),
        forall|i: int| 0 <= i < turns.len() ==> harmless(#[trigger] turns[i], link),
    ensures
        ({
            let run = scheduled::<E, P>(ImportRun::start(link), turns);
            &&& run.link matches Some(now)
            &&& now.stream == link.stream
            &&& now.node == link.node
            &&& now.lease == link.lease
        }),
    decreases turns.len(),
{
    let start = ImportRun::<E::Payload, P>::start(link);
    if turns.len() > 0 {
        let rest = turns.drop_last();
        let run = scheduled::<E, P>(start, rest);
        let after = scheduled::<E, P>(start, turns);
        assert(run.fed.is_prefix_of(after.fed));
        assert(run.fed.is_prefix_of(frame)) by {
            assert forall|i: int| 0 <= i < run.fed.len() implies run.fed[i] == frame[i] by {
                assert(run.fed[i] == after.fed[i]);
                assert(after.fed[i] == frame[i]);
            }
            assert(run.fed =~= frame.take(run.fed.len() as int));
        }
        assert forall|i: int| 0 <= i < rest.len() implies harmless(#[trigger] rest[i], link) by {
            assert(rest[i] == turns[i]);
        }
        law_import_goes_on::<E, P>(link, rest, frame, sequence);
        law_import_schedule::<E, P>(link, rest);
        law_import_one_frame::<E, P>(link, rest, frame, sequence);
        assert(turns[turns.len() - 1] == turns.last());
        if run.admitted.len() > 0 {
            lemma_first_frame(run.admitted);
            let first = run.admitted[0];
            assert(carries::<E, P>(first.bytes, link.limit, first.sequence, first.value));
            assert(first.bytes.is_prefix_of(run.fed));
            assert(first.bytes.take(HEADER_BYTES as int) =~= frame.take(HEADER_BYTES as int)) by {
                assert forall|i: int| 0 <= i < HEADER_BYTES implies first.bytes[i] == frame[i] by {
                    assert(first.bytes[i] == run.fed[i]);
                    assert(run.fed[i] == frame[i]);
                }
            }
        }
        lemma_goes_on::<E, P>(run, link, frame, sequence, turns.last());
    }
}

/// Whoever is told of an event of the schedule finds the grant revoked.
pub open spec fn revoked_in<T, P>(turns: Seq<ImportTurn<T, P>>, node: nat) -> bool {
    forall|i: int|
        0 <= i < turns.len() ==> ((#[trigger] turns[i]) matches ImportTurn::Event(v, input, decoded)
            ==> v.ledger.nodes[node as int].revoked)
}

/// A link that has ended, by a failure, by its peer or from outside, writes and admits
/// nothing more; nor does one whose grant is revoked between two polls, whatever comes.
pub proof fn law_import_cutoff<E: WireCodec, P: Carries<E::Payload>>(
    run: ImportRun<E::Payload, P>,
    turns: Seq<ImportTurn<E::Payload, P>>,
)
    requires
        can_happen::<E, P>(run, turns),
        run.link matches Some(link) ==> run.between_polls() && revoked_in(turns, link.node),
    ensures
        ({
            let after = scheduled::<E, P>(run, turns);
            &&& after.written == run.written
            &&& after.admitted == run.admitted
            &&& after.published == run.published
            &&& after.link is None || after.link == run.link && after.between_polls()
            &&& run.link is None ==> after.link is None
        }),
    decreases turns.len(),
{
    if turns.len() > 0 {
        let rest = turns.drop_last();
        if run.link is Some {
            assert(revoked_in(rest, run.link->0.node)) by {
                assert forall|i: int| 0 <= i < rest.len() implies ((
                #[trigger] rest[i]) matches ImportTurn::Event(v, input, decoded)
                    ==> v.ledger.nodes[run.link->0.node as int].revoked) by {
                    assert(turns[i] == rest[i]);
                }
            }
        }
        law_import_cutoff::<E, P>(run, rest);
        let before = scheduled::<E, P>(run, rest);
        match turns.last() {
            ImportTurn::Event(v, input, decoded) => {
                if before.link is Some {
                    assert(turns[turns.len() - 1] == turns.last());
                    assert(v.ledger.nodes[run.link->0.node as int].revoked);
                    assert(input is Polled);
                    assert(before.written + before.link->0.outgoing().take(0) =~= before.written);
                }
            },
            _ => {},
        }
    }
}

/// The turn is one of those that end a link, whatever its stage: it is ended from outside or
/// polled after a revocation, control bytes come or a socket fails, the peer closes the data
/// socket, or the control socket takes nothing.
pub open spec fn ends<T, P>(turn: ImportTurn<T, P>, node: nat) -> bool {
    match turn {
        ImportTurn::Cancel => true,
        ImportTurn::Event(v, input, decoded) => match input {
            ImportInput::Polled => v.ledger.nodes[node as int].revoked,
            ImportInput::ControlRead(_) => true,
            ImportInput::Failed(_) => true,
            ImportInput::DataRead(data) => data.len() == 0,
            ImportInput::CreditWritten(count) => count == 0,
            _ => false,
        },
        _ => false,
    }
}

/// A turn that ends the link writes and admits nothing.
proof fn lemma_last_turn<E: WireCodec, P: Carries<E::Payload>>(
    run: ImportRun<E::Payload, P>,
    turn: ImportTurn<E::Payload, P>,
)
    requires
        run.link is Some,
        turned::<E, P>(run, turn).link is None,
    ensures
        turned::<E, P>(run, turn).written == run.written,
        turned::<E, P>(run, turn).admitted == run.admitted,
{
    let now = run.link->0;
    let next = turned::<E, P>(run, turn);
    match turn {
        ImportTurn::Event(v, input, decoded) => {
            assert(run.written + now.outgoing().take(0) =~= run.written);
        },
        _ => {},
    }
}

/// One frame through an importing link, by any schedule. While nothing ends it, the link goes
/// on; it writes nothing before the whole frame was read and its stream had room, and then as
/// much of the credit as the control socket takes; and its grant has in use exactly what a
/// link takes, where nothing else of the resource is charged. Once a turn ends the link,
/// whichever it is, nothing more is written or admitted. Cancellation, revocation, a failed or
/// closed socket, and control bytes end it, and leave nothing of its own charged.
pub proof fn law_import_io<E: WireCodec, P: Carries<E::Payload>>(
    link: ImportView<E::Payload>,
    turns: Seq<ImportTurn<E::Payload, P>>,
    frame: Seq<u8>,
    sequence: u64,
    next: ImportTurn<E::Payload, P>,
    rest: Seq<ImportTurn<E::Payload, P>>,
    k: int,
)
    requires
        fresh(link),
        can_happen::<E, P>(ImportRun::start(link), turns),
        headed(frame, declared::<E, P>(), link.limit, sequence),
        frame.len() == HEADER_BYTES + header_length(frame.take(HEADER_BYTES as int)),
        scheduled::<E, P>(ImportRun::start(link), turns).fed.is_prefix_of(frame),
        forall|i: int| 0 <= i < turns.len() ==> harmless(#[trigger] turns[i], link),
        possible::<E, P>(scheduled::<E, P>(ImportRun::start(link), turns), next),
        can_happen::<E, P>(
            turned::<E, P>(scheduled::<E, P>(ImportRun::start(link), turns), next),
            rest,
        ),
        0 <= k < RESOURCES,
    ensures
        ({
            let run = scheduled::<E, P>(ImportRun::start(link), turns);
            let then = turned::<E, P>(run, next);
            let after = scheduled::<E, P>(then, rest);
            let credit = credit_bytes(sequence);
            &&& run.link is Some
            &&& run.admitted.len() == 0 ==> run.written.len() == 0
            &&& run.admitted.len() <= 1
            &&& run.admitted.len() == 1 ==> run.fed == frame
            &&& run.admitted.len() == 1 && run.idle ==> run.written == credit.take(
                if run.permitted < CREDIT_BYTES {
                    run.permitted as int
                } else {
                    CREDIT_BYTES as int
                },
            )
            &&& run.idle && run.fed == frame && run.admitted.len() == 0 ==> {
                &&& run.link->0.stage matches ImportStage::Sending(_, value, _)
                &&& waits(run.link->0, run.seen->0, value)
            }
            &&& next matches ImportTurn::Event(v, input, decoded) ==> (else_unused(
                v.ledger,
                link.node,
                k,
                link.lease,
                link.lease,
            ) ==> v.ledger.nodes[link.node as int].used(k) == link_allowance(link.limit).get(k))
            &&& ends(next, link.node) ==> then.link is None
            &&& next matches ImportTurn::Event(v, input, decoded) ==> (ends(next, link.node)
                && else_unused(v.ledger, link.node, k, link.lease, link.lease) ==> run.link->0.step(
                v,
                input,
                declared::<E, P>(),
                decoded,
            ).2.ledger.nodes[link.node as int].used(k) == 0)
            &&& then.link is None ==> {
                &&& after.written == run.written
                &&& after.admitted == run.admitted
                &&& after.link is None
            }
            &&& forall|v: FabricView<P>| #[trigger]
                run.link->0.held(v) && else_unused(
                    v.ledger,
                    link.node,
                    k,
                    link.lease,
                    link.lease,
                ) ==> run.link->0.ended(v).ledger.nodes[link.node as int].used(k) == 0
        }),
{
    let run = scheduled::<E, P>(ImportRun::start(link), turns);
    let then = turned::<E, P>(run, next);
    law_import_schedule::<E, P>(link, turns);
    law_import_one_frame::<E, P>(link, turns, frame, sequence);
    law_import_goes_on::<E, P>(link, turns, frame, sequence);
    let now = run.link->0;
    match next {
        ImportTurn::Event(v, input, decoded) => {
            law_import_charged(now, v, k);
            if ends(next, link.node) {
                assert(now.step(v, input, declared::<E, P>(), decoded).2 == now.ended(v));
            }
        },
        _ => {},
    }
    if then.link is None {
        lemma_last_turn::<E, P>(run, next);
        law_import_cutoff::<E, P>(then, rest);
    }
    assert forall|v: FabricView<P>| #[trigger]
        now.held(v) && else_unused(v.ledger, link.node, k, link.lease, link.lease) implies
        now.ended(v).ledger.nodes[link.node as int].used(k) == 0 by {
        law_import_ended(now, v, k);
    }
}

} // verus!
