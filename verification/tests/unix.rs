use hiway::endpoint::{DynamicReceiver, SendStep};
use hiway::error::{ReceiveError, SendError, TopicError, TrySendError};
use hiway::event::{EventId, EventSpec};
use hiway::fabric::DynamicFabric;
use hiway::fabric_model::StreamConfig;
use hiway::grant::{Limits, Permission, Rights, StreamLimits};
use hiway::ipc::{filled, payload_buffer, IoFailure, IoKind, IpcError, LinkAction};
use hiway::item::{StreamItem, SubscriptionRole};
use hiway::ledger::{Grant, Revocation};
use hiway::ledger_model::Signal;
use hiway::metadata::SchemaRevision;
use hiway::payload::{Shared, Single};
use hiway::unix_export::{ExportEvent, UnixExport};
use hiway::unix_import::{ImportEvent, UnixImport};
use hiway::unix_link::{relay_end, UnixLink};
use hiway::wire::{WireCodec, WireError};
use std::collections::VecDeque;

struct Number;

impl EventSpec for Number {
    type Payload = u32;
    const ID: EventId = EventId(5);
}

impl WireCodec for Number {
    fn encoded_len(_: &u32) -> usize {
        4
    }

    fn encode(value: &u32, output: &mut [u8]) -> Result<usize, WireError> {
        output
            .get_mut(..4)
            .ok_or(WireError::BufferTooSmall)?
            .copy_from_slice(&value.to_le_bytes());
        Ok(4)
    }

    fn decode(bytes: &[u8], revision: SchemaRevision) -> Result<u32, WireError> {
        if revision != SchemaRevision(1) {
            return Err(WireError::UnsupportedRevision);
        }
        Ok(u32::from_le_bytes(
            bytes.try_into().map_err(|_| WireError::InvalidPayload)?,
        ))
    }
}

type Fabric = DynamicFabric<Single<u32>>;

fn allowance() -> Limits {
    Limits {
        streams: 4,
        grants: 4,
        subscriptions: 8,
        retained_items: 16,
        waiters: 16,
        connections: 8,
        bytes: 1024,
    }
}

fn permission(rights: Rights) -> [Permission; 1] {
    [Permission::new::<Number>(rights).with_limits(StreamLimits {
        retained_items: 8,
        subscriptions: 4,
        waiters: 8,
    })]
}

fn setup(capacity: usize) -> (Fabric, Grant) {
    let mut fabric = Fabric::new();
    fabric
        .create_stream::<Number>(StreamConfig {
            capacity,
            subscribers: 8,
            waiters: 16,
        })
        .unwrap();
    let grant = fabric
        .grant(
            &permission(Rights::publish() | Rights::observe() | Rights::required()),
            allowance(),
        )
        .unwrap();
    (fabric, grant)
}

fn frame(sequence: u64, value: u32) -> Vec<u8> {
    let mut bytes = b"HWY1".to_vec();
    bytes.extend_from_slice(&5_u128.to_le_bytes());
    bytes.extend_from_slice(&1_u16.to_le_bytes());
    bytes.extend_from_slice(&1_u32.to_le_bytes());
    bytes.extend_from_slice(&sequence.to_le_bytes());
    bytes.extend_from_slice(&4_u32.to_le_bytes());
    bytes.extend_from_slice(&value.to_le_bytes());
    bytes
}

fn revoke(fabric: &mut Fabric, grant: &Grant) {
    assert_eq!(fabric.begin_revocation(grant), Ok(Revocation::Pending));
    assert!(fabric.settle_revocation(grant));
    fabric.end_revocation(grant);
}

fn value_of(item: Option<StreamItem<Shared<u32, Single<u32>>>>) -> Option<StreamItem<u32>> {
    item.map(|item| item.map(|value| *value))
}

#[derive(Default)]
struct Io {
    input: VecDeque<u8>,
    output: Vec<u8>,
    read_bytes: usize,
    writable: usize,
    eof: bool,
}

impl Io {
    fn feed(&mut self, bytes: &[u8], eof: bool) {
        self.input.extend(bytes);
        self.eof = eof;
    }

    fn permit_write(&mut self, bytes: usize) {
        self.writable += bytes;
    }

    fn counts(&self) -> (usize, usize) {
        (self.read_bytes, self.output.len())
    }

    fn poll_read(&mut self, limit: usize) -> Option<Vec<u8>> {
        if self.input.is_empty() && !self.eof && limit > 0 {
            return None;
        }
        let mut bytes = Vec::new();
        while bytes.len() < limit {
            let Some(byte) = self.input.pop_front() else {
                break;
            };
            bytes.push(byte);
            self.read_bytes += 1;
        }
        Some(bytes)
    }

    fn poll_write(&mut self, bytes: &[u8]) -> Option<usize> {
        if self.writable == 0 && !bytes.is_empty() {
            return None;
        }
        let length = bytes.len().min(self.writable);
        self.writable -= length;
        self.output.extend_from_slice(&bytes[..length]);
        Some(length)
    }
}

#[derive(Clone, Copy)]
enum Leg {
    Import,
    Export,
}

struct Driver {
    link: Option<UnixLink<Number>>,
    leg: Leg,
    result: Option<Result<(), IpcError>>,
}

impl Driver {
    fn new(leg: Leg, link: UnixLink<Number>) -> Self {
        Self {
            link: Some(link),
            leg,
            result: None,
        }
    }

    fn poll_import(
        link: &mut UnixLink<Number>,
        fabric: &mut Fabric,
        data: &mut Io,
        control: &mut Io,
    ) -> LinkAction {
        let mut action = link.step_import(fabric, ImportEvent::Polled);
        loop {
            action = match action {
                LinkAction::PollControl(limit) => match control.poll_read(limit) {
                    None => link.step_import(fabric, ImportEvent::ControlPending),
                    Some(bytes) => link.step_import(fabric, ImportEvent::ControlRead(bytes.len())),
                },
                LinkAction::Read(limit) => match data.poll_read(limit) {
                    None => link.step_import(fabric, ImportEvent::SocketPending),
                    Some(bytes) => link.step_import(fabric, ImportEvent::DataRead(&bytes)),
                },
                LinkAction::Write => match control.poll_write(link.outgoing_credit(fabric)) {
                    None => link.step_import(fabric, ImportEvent::SocketPending),
                    Some(count) => link.step_import(fabric, ImportEvent::CreditWritten(count)),
                },
                other => return other,
            }
        }
    }

    fn poll_export(
        link: &mut UnixLink<Number>,
        fabric: &mut Fabric,
        data: &mut Io,
        control: &mut Io,
    ) -> LinkAction {
        let mut action = link.step_export(fabric, ExportEvent::Polled);
        loop {
            action = match action {
                LinkAction::PollControl(limit) => match control.poll_read(limit) {
                    None => link.step_export(fabric, ExportEvent::ControlPending),
                    Some(bytes) => link.step_export(fabric, ExportEvent::ControlRead(&bytes)),
                },
                LinkAction::Write => match data.poll_write(link.outgoing_frame(fabric)) {
                    None => link.step_export(fabric, ExportEvent::DataPending),
                    Some(count) => link.step_export(fabric, ExportEvent::DataWritten(count)),
                },
                other => return other,
            }
        }
    }

    fn drive(&mut self, fabric: &mut Fabric, data: &mut Io, control: &mut Io) {
        let mut polls = 0;
        let mut ready = true;
        while self.link.is_some() && ready {
            ready = false;
            polls += 1;
            assert!(polls <= 8, "idle driver repeatedly woke itself");
            let before = (data.counts(), control.counts());
            let link = self.link.as_mut().unwrap();
            let action = match self.leg {
                Leg::Import => Self::poll_import(link, fabric, data, control),
                Leg::Export => Self::poll_export(link, fabric, data, control),
            };
            let after = (data.counts(), control.counts());
            assert!(after.0 .0 - before.0 .0 <= 42);
            assert!(after.0 .1 - before.0 .1 <= 42);
            assert!(after.1 .0 - before.1 .0 <= 9);
            assert!(after.1 .1 - before.1 .1 <= 9);
            match action {
                LinkAction::Yield => ready = true,
                LinkAction::Pending => {}
                LinkAction::Done(result) => {
                    self.result = Some(result);
                    self.link = None;
                }
                other => panic!("unexpected action: {other:?}"),
            }
        }
    }

    fn cancel(&mut self, fabric: &mut Fabric) {
        if let Some(link) = self.link.take() {
            link.cancel(fabric);
        }
    }
}

#[derive(Clone, Copy, Debug)]
enum Finish {
    Cancel,
    Revoke,
    Disconnect,
    InvalidControl,
}

fn terminate(
    driver: &mut Driver,
    fabric: &mut Fabric,
    grant: &Grant,
    data: &mut Io,
    control: &mut Io,
    finish: Finish,
) {
    match finish {
        Finish::Cancel => driver.cancel(fabric),
        Finish::Revoke => revoke(fabric, grant),
        Finish::Disconnect => control.feed(&[], true),
        Finish::InvalidControl => control.feed(&[0; 18], false),
    }
    driver.drive(fabric, data, control);
    match finish {
        Finish::Cancel => assert!(driver.result.is_none()),
        Finish::Revoke => assert!(matches!(driver.result, Some(Err(IpcError::Revoked)))),
        Finish::Disconnect => assert!(matches!(&driver.result,
            Some(Err(IpcError::Io(error))) if error.kind == IoKind::UnexpectedEof)),
        Finish::InvalidControl => {
            assert!(matches!(driver.result, Some(Err(IpcError::Protocol))));
        }
    }
    assert!(driver.link.is_none());
}

fn import_schedule(cut: usize, credit: usize, actions: &[usize], eager: bool, finish: Finish) {
    let (mut fabric, local) = setup(1);
    let grant = fabric
        .grant(&permission(Rights::publish()), allowance())
        .unwrap();
    let required: DynamicReceiver<Number> = local
        .subscribe(&mut fabric, SubscriptionRole::Required)
        .unwrap();
    local
        .sender::<Number, Single<u32>>(&mut fabric)
        .unwrap()
        .send_now(&mut fabric, 10)
        .unwrap();
    let mut data = Io::default();
    let mut control = Io::default();
    let handle = grant.duplicate(&mut fabric);
    let mut driver = Driver::new(
        Leg::Import,
        UnixLink::import(&mut fabric, handle, 4).unwrap(),
    );
    driver.drive(&mut fabric, &mut data, &mut control);
    let mut fed = 0;
    let mut received = false;
    let mut accepted = false;
    let mut writable = 0;
    let input = frame(7, 20);
    let expected_credit = [1, 7, 0, 0, 0, 0, 0, 0, 0];
    for &action in actions {
        match action {
            0 => {
                data.feed(&input[..cut], false);
                fed += cut;
            }
            1 => {
                data.feed(&input[cut..], false);
                fed += input.len() - cut;
            }
            2 => {
                control.permit_write(credit);
                writable = credit;
            }
            3 => {
                assert!(matches!(required.recv_now(&mut fabric).unwrap(),
                    Some(StreamItem::Data { sequence: 0, value }) if *value == 10));
                received = true;
            }
            _ => unreachable!(),
        }
        if eager {
            driver.drive(&mut fabric, &mut data, &mut control);
            accepted |= fed == input.len() && received;
            assert!(driver.result.is_none());
            assert_eq!(
                control.output,
                expected_credit[..if accepted { writable } else { 0 }]
            );
            assert_eq!(
                grant.stream_usage::<Number, Single<u32>>(&fabric).unwrap(),
                StreamLimits {
                    retained_items: usize::from(accepted),
                    waiters: usize::from(fed == input.len() && !received),
                    subscriptions: 0,
                }
            );
        }
        assert_eq!(grant.usage(&fabric).connections, 2);
        assert_eq!(grant.usage(&fabric).bytes, 60);
    }
    let output = control.output.clone();
    terminate(
        &mut driver,
        &mut fabric,
        &grant,
        &mut data,
        &mut control,
        finish,
    );
    data.feed(&input, false);
    control.permit_write(9);
    driver.drive(&mut fabric, &mut data, &mut control);
    assert_eq!(control.output, output);
    if !received {
        assert!(matches!(required.recv_now(&mut fabric).unwrap(),
            Some(StreamItem::Data { value, .. }) if *value == 10));
    }
    let tail = value_of(required.recv_now(&mut fabric).unwrap());
    let expected = if accepted {
        Some(StreamItem::Data {
            sequence: 1,
            value: 20,
        })
    } else {
        None
    };
    assert_eq!(tail, expected);
    assert_eq!(required.recv_now(&mut fabric).unwrap(), None);
    assert_eq!(grant.usage(&fabric), Limits::zero());
}

#[test]
fn import_readiness_schedules_preserve_acceptance_credit_and_cutoff() {
    for a in 0..4 {
        for b in 0..4 {
            for c in 0..4 {
                for d in 0..4 {
                    let order = [a, b, c, d];
                    if (0..4).any(|i| order[..i].contains(&order[i]))
                        || order.iter().position(|&x| x == 0) > order.iter().position(|&x| x == 1)
                    {
                        continue;
                    }
                    for cut in [1, 38, 41] {
                        for credit in [0, 1, 8, 9] {
                            for length in 0..=4 {
                                for eager in [false, true] {
                                    for finish in [
                                        Finish::Cancel,
                                        Finish::Revoke,
                                        Finish::Disconnect,
                                        Finish::InvalidControl,
                                    ] {
                                        import_schedule(
                                            cut,
                                            credit,
                                            &order[..length],
                                            eager,
                                            finish,
                                        );
                                    }
                                }
                            }
                        }
                    }
                }
            }
        }
    }
}

fn export_schedule(cut: usize, credit_cut: usize, actions: &[usize], eager: bool, finish: Finish) {
    let (mut fabric, local) = setup(2);
    let grant = fabric
        .grant(
            &permission(Rights::observe() | Rights::required()),
            allowance(),
        )
        .unwrap();
    let mut data = Io::default();
    let mut control = Io::default();
    let handle = grant.duplicate(&mut fabric);
    let mut driver = Driver::new(
        Leg::Export,
        UnixLink::export(&mut fabric, handle, SubscriptionRole::Required, 4).unwrap(),
    );
    let sender = local.sender::<Number, Single<u32>>(&mut fabric).unwrap();
    sender.send_now(&mut fabric, 10).unwrap();
    sender.send_now(&mut fabric, 20).unwrap();
    driver.drive(&mut fabric, &mut data, &mut control);
    let mut expected = frame(0, 10);
    expected.extend(frame(1, 20));
    let credit = [1, 0, 0, 0, 0, 0, 0, 0, 0];
    let mut credited = 0;
    let mut writable = 0;
    for &action in actions {
        match action {
            0 => {
                data.permit_write(cut);
                writable += cut;
            }
            1 => {
                control.feed(&credit[..credit_cut], false);
                credited += credit_cut;
            }
            2 => {
                control.feed(&credit[credit_cut..], false);
                credited += credit.len() - credit_cut;
            }
            3 => {
                data.permit_write(84 - cut);
                writable += 84 - cut;
            }
            _ => unreachable!(),
        }
        if eager {
            driver.drive(&mut fabric, &mut data, &mut control);
            assert!(driver.result.is_none());
            let written = writable.min(if credited == credit.len() { 84 } else { 42 });
            assert_eq!(data.output, expected[..written]);
            assert_eq!(
                local.usage(&fabric).retained_items,
                usize::from(credited < credit.len() || writable < 42)
            );
        }
        assert_eq!(
            grant.usage(&fabric),
            Limits {
                subscriptions: 1,
                retained_items: 1,
                waiters: 2,
                connections: 2,
                bytes: 60,
                ..Limits::zero()
            }
        );
    }
    let before = data.output.clone();
    terminate(
        &mut driver,
        &mut fabric,
        &grant,
        &mut data,
        &mut control,
        finish,
    );
    let after = data.output.clone();
    assert_eq!(after, expected[..after.len()]);
    if matches!(finish, Finish::Cancel | Finish::Revoke) {
        assert_eq!(after, before);
    }
    data.permit_write(84);
    control.feed(&credit, false);
    driver.drive(&mut fabric, &mut data, &mut control);
    assert_eq!(data.output, after);
    assert_eq!(grant.usage(&fabric), Limits::zero());
    assert_eq!(local.usage(&fabric), Limits::zero());
}

#[test]
fn export_readiness_schedules_preserve_frames_credits_and_cutoff() {
    for order in [
        [0, 3, 1, 2],
        [0, 1, 3, 2],
        [0, 1, 2, 3],
        [1, 2, 0, 3],
        [1, 0, 2, 3],
        [1, 0, 3, 2],
    ] {
        for cut in [0, 1, 37, 38, 41, 42] {
            for credit_cut in [1, 8] {
                for length in 0..=4 {
                    for eager in [false, true] {
                        for finish in [
                            Finish::Cancel,
                            Finish::Revoke,
                            Finish::Disconnect,
                            Finish::InvalidControl,
                        ] {
                            export_schedule(cut, credit_cut, &order[..length], eager, finish);
                        }
                    }
                }
            }
        }
    }
}

#[test]
fn always_ready_import_yields_between_frames() {
    let (mut fabric, _) = setup(3);
    let grant = fabric
        .grant(
            &permission(Rights::publish() | Rights::observe()),
            allowance(),
        )
        .unwrap();
    let observer: DynamicReceiver<Number> = grant
        .subscribe(&mut fabric, SubscriptionRole::Observer)
        .unwrap();
    let mut data = Io::default();
    let mut control = Io::default();
    for value in 0..3 {
        data.feed(&frame(u64::from(value), value), false);
    }
    control.permit_write(27);
    let handle = grant.duplicate(&mut fabric);
    let mut driver = Driver::new(
        Leg::Import,
        UnixLink::import(&mut fabric, handle, 4).unwrap(),
    );
    driver.drive(&mut fabric, &mut data, &mut control);
    for value in 0..3 {
        assert_eq!(
            value_of(observer.recv_now(&mut fabric).unwrap()),
            Some(StreamItem::Data {
                sequence: u64::from(value),
                value
            })
        );
    }
    assert_eq!(control.counts().1, 27);
    assert!(driver.result.is_none());
    terminate(
        &mut driver,
        &mut fabric,
        &grant,
        &mut data,
        &mut control,
        Finish::Revoke,
    );
    observer.detach(&mut fabric);
    assert_eq!(grant.usage(&fabric), Limits::zero());
}

fn importing(fabric: &mut Fabric, grant: &Grant) -> Driver {
    let handle = grant.duplicate(fabric);
    Driver::new(Leg::Import, UnixLink::import(fabric, handle, 4).unwrap())
}

fn exporting(fabric: &mut Fabric, grant: &Grant, role: SubscriptionRole) -> Driver {
    let handle = grant.duplicate(fabric);
    Driver::new(
        Leg::Export,
        UnixLink::export(fabric, handle, role, 4).unwrap(),
    )
}

#[test]
fn ipc_cannot_borrow_event_reservations_and_full_transport_pool_cannot_block_local_progress() {
    for generic_items in 0..=1 {
        let mut fabric = Fabric::new();
        fabric
            .create_stream::<Number>(StreamConfig {
                capacity: 1,
                subscribers: 1,
                waiters: 1,
            })
            .unwrap();
        let event_limits = StreamLimits {
            retained_items: 1,
            subscriptions: 1,
            waiters: 1,
        };
        let grant = fabric
            .grant(
                &[Permission::new::<Number>(
                    Rights::publish() | Rights::observe() | Rights::required(),
                )
                .with_limits(event_limits)],
                Limits {
                    streams: 1,
                    retained_items: 1 + generic_items,
                    subscriptions: 1,
                    waiters: 3,
                    connections: 2,
                    bytes: 60,
                    ..Limits::zero()
                },
            )
            .unwrap();
        let sender = grant.sender::<Number, Single<u32>>(&mut fabric).unwrap();
        let receiver: DynamicReceiver<Number> = grant
            .subscribe(&mut fabric, SubscriptionRole::Required)
            .unwrap();
        let before = grant.usage(&fabric);
        let handle = grant.duplicate(&mut fabric);
        let link = UnixLink::<Number>::import(&mut fabric, handle, 4);
        if generic_items == 0 {
            assert!(matches!(link, Err(IpcError::Topic(TopicError::Capacity))));
            assert_eq!(grant.usage(&fabric), before);
            sender.send_now(&mut fabric, 7).unwrap();
            assert!(
                matches!(receiver.recv_now(&mut fabric).unwrap(), Some(StreamItem::Data { value, .. }) if *value == 7)
            );
        } else {
            let mut link = Driver::new(Leg::Import, link.unwrap());
            sender.send_now(&mut fabric, 7).unwrap();
            let SendStep::Wait(pending) = sender.send(&mut fabric, 8) else {
                panic!("a full stream must make the publication wait")
            };
            assert_eq!(grant.usage(&fabric).waiters, 3);
            assert_eq!(
                grant.stream_usage::<Number, Single<u32>>(&fabric).unwrap(),
                event_limits
            );
            assert!(
                matches!(receiver.recv_now(&mut fabric).unwrap(), Some(StreamItem::Data { value, .. }) if *value == 7)
            );
            assert!(matches!(
                sender.resend(&mut fabric, pending),
                SendStep::Sent
            ));
            revoke(&mut fabric, &grant);
            link.drive(&mut fabric, &mut Io::default(), &mut Io::default());
            assert!(matches!(link.result, Some(Err(IpcError::Revoked))));
            assert_eq!(grant.usage(&fabric).connections, 0);
            assert_eq!(grant.usage(&fabric).bytes, 0);
            fabric.close_stream::<Number>().unwrap();
            assert_eq!(grant.usage(&fabric).retained_items, 0);
        }
    }
}

#[test]
fn relay_retains_source_charges_until_revoked_under_downstream_backpressure() {
    let (mut fabric, parent) = setup(1);
    let source = parent
        .restrict(
            &mut fabric,
            &permission(Rights::publish() | Rights::observe() | Rights::required()),
            Limits {
                grants: 0,
                ..allowance()
            },
        )
        .unwrap();
    let reservation = parent.usage(&fabric);
    let handle = source.duplicate(&mut fabric);
    let mut relay =
        UnixLink::<Number>::relay(&mut fabric, handle, SubscriptionRole::Required, 4).unwrap();
    assert_eq!(source.usage(&fabric).connections, 4);
    assert_eq!(source.usage(&fabric).bytes, 120);
    assert_eq!(source.usage(&fabric).retained_items, 2);
    assert_eq!(source.usage(&fabric).waiters, 4);
    let (mut input, mut input_control) = (Io::default(), Io::default());
    let (mut output, mut output_control) = (Io::default(), Io::default());
    input_control.permit_write(27);
    output.permit_write(200);
    let poll = |relay: &mut UnixLink<Number>,
                fabric: &mut Fabric,
                input: &mut Io,
                input_control: &mut Io,
                output: &mut Io,
                output_control: &mut Io| {
        for _ in 0..4 {
            assert!(matches!(
                Driver::poll_import(relay, fabric, input, input_control),
                LinkAction::Pending | LinkAction::Yield
            ));
            assert!(matches!(
                Driver::poll_export(relay, fabric, output, output_control),
                LinkAction::Pending | LinkAction::Yield
            ));
        }
    };
    for (sequence, value) in [(10, 40), (11, 41), (12, 42)] {
        input.feed(&frame(sequence, value), false);
        poll(
            &mut relay,
            &mut fabric,
            &mut input,
            &mut input_control,
            &mut output,
            &mut output_control,
        );
    }
    assert_eq!(output.output, frame(0, 40));
    assert_eq!(
        input_control.output,
        [1, 10, 0, 0, 0, 0, 0, 0, 0, 1, 11, 0, 0, 0, 0, 0, 0, 0]
    );
    assert_eq!(
        source.stream_usage::<Number, Single<u32>>(&fabric).unwrap().waiters,
        1
    );
    assert_eq!(source.usage(&fabric).connections, 4);
    assert_eq!(source.usage(&fabric).bytes, 120);
    assert_eq!(source.usage(&fabric).retained_items, 3);
    assert_eq!(source.usage(&fabric).waiters, 5);
    assert_eq!(parent.usage(&fabric), reservation);
    revoke(&mut fabric, &parent);
    assert!(matches!(
        Driver::poll_import(&mut relay, &mut fabric, &mut input, &mut input_control),
        LinkAction::Done(Err(IpcError::Revoked))
    ));
    assert!(matches!(
        Driver::poll_export(&mut relay, &mut fabric, &mut output, &mut output_control),
        LinkAction::Done(Ok(()))
    ));
    fabric.maintain();
    assert_eq!(source.usage(&fabric), Limits::zero());
    assert_eq!(parent.usage(&fabric), reservation);
    source.release(&mut fabric);
    assert_eq!(parent.usage(&fabric), Limits::zero());
}

#[test]
fn failure_of_the_exporting_leg_closes_a_relay() {
    let (mut fabric, grant) = setup(1);
    let handle = grant.duplicate(&mut fabric);
    let mut relay =
        UnixLink::<Number>::relay(&mut fabric, handle, SubscriptionRole::Observer, 4).unwrap();
    let (mut output, mut output_control) = (Io::default(), Io::default());
    output_control.feed(&[], true);
    assert!(matches!(
        Driver::poll_export(&mut relay, &mut fabric, &mut output, &mut output_control),
        LinkAction::Done(Err(IpcError::Io(error))) if error.kind == IoKind::UnexpectedEof
    ));
    assert!(matches!(
        relay.step_import(&mut fabric, ImportEvent::Polled),
        LinkAction::Done(Ok(()))
    ));
    assert_eq!(grant.usage(&fabric), Limits::zero());
}

#[test]
fn relay_constructor_rolls_back_when_only_one_leg_fits() {
    let (mut fabric, _) = setup(1);
    let source = fabric
        .grant(
            &permission(Rights::publish() | Rights::observe() | Rights::required()),
            Limits {
                connections: 2,
                ..allowance()
            },
        )
        .unwrap();
    let handle = source.duplicate(&mut fabric);
    let result = UnixLink::<Number>::relay(&mut fabric, handle, SubscriptionRole::Required, 4);
    assert!(matches!(result, Err(IpcError::Topic(TopicError::Capacity))));
    assert_eq!(source.usage(&fabric), Limits::zero());
}

#[test]
fn authorized_links_transfer_between_independent_fabrics() {
    let (mut source_fabric, source) = setup(2);
    let (mut destination_fabric, destination) = setup(2);
    let sender = source.sender::<Number, Single<u32>>(&mut source_fabric).unwrap();
    let receiver: DynamicReceiver<Number> = destination
        .subscribe(&mut destination_fabric, SubscriptionRole::Required)
        .unwrap();
    let mut export = exporting(&mut source_fabric, &source, SubscriptionRole::Required);
    let mut import = importing(&mut destination_fabric, &destination);
    sender.send_now(&mut source_fabric, 17).unwrap();
    sender.send_now(&mut source_fabric, 29).unwrap();
    let (mut out, mut credits) = (Io::default(), Io::default());
    let (mut into, mut back) = (Io::default(), Io::default());
    out.permit_write(84);
    back.permit_write(18);
    for _ in 0..2 {
        export.drive(&mut source_fabric, &mut out, &mut credits);
        let bytes: Vec<u8> = out.output.drain(..).collect();
        into.feed(&bytes, false);
        import.drive(&mut destination_fabric, &mut into, &mut back);
        let bytes: Vec<u8> = back.output.drain(..).collect();
        credits.feed(&bytes, false);
    }
    for expected in [17, 29] {
        assert!(
            matches!(receiver.recv_now(&mut destination_fabric).unwrap(), Some(StreamItem::Data { value, .. }) if *value == expected)
        );
    }
    revoke(&mut source_fabric, &source);
    revoke(&mut destination_fabric, &destination);
    export.drive(&mut source_fabric, &mut out, &mut credits);
    import.drive(&mut destination_fabric, &mut into, &mut back);
    assert!(matches!(export.result, Some(Err(IpcError::Revoked))));
    assert!(matches!(import.result, Some(Err(IpcError::Revoked))));
    assert_eq!(source.usage(&source_fabric).connections, 0);
    assert_eq!(destination.usage(&destination_fabric).bytes, 0);
}

#[test]
fn binding_cannot_add_rights_or_exceed_byte_allowance() {
    let (mut fabric, _grant) = setup(1);
    let observe = fabric
        .grant(&permission(Rights::observe()), allowance())
        .unwrap();
    let handle = observe.duplicate(&mut fabric);
    assert!(matches!(
        UnixLink::<Number>::import(&mut fabric, handle, 4),
        Err(IpcError::Topic(TopicError::Denied))
    ));
    let handle = observe.duplicate(&mut fabric);
    assert!(matches!(
        UnixLink::<Number>::export(&mut fabric, handle, SubscriptionRole::Required, 4),
        Err(IpcError::Topic(TopicError::Denied))
    ));
    assert_eq!(observe.usage(&fabric).connections, 0);
    assert_eq!(observe.usage(&fabric).bytes, 0);

    let limited = fabric
        .grant(
            &permission(Rights::publish()),
            Limits {
                bytes: 3,
                ..allowance()
            },
        )
        .unwrap();
    let handle = limited.duplicate(&mut fabric);
    assert!(matches!(
        UnixLink::<Number>::import(&mut fabric, handle, 4),
        Err(IpcError::Topic(TopicError::Capacity))
    ));
    assert_eq!(limited.usage(&fabric).connections, 0);
    assert_eq!(limited.usage(&fabric).retained_items, 0);
    let handle = limited.duplicate(&mut fabric);
    assert!(matches!(
        UnixLink::<Number>::import(&mut fabric, handle, u32::MAX as usize + 1),
        Err(IpcError::Topic(TopicError::InvalidConfig))
    ));
}

#[test]
fn invalid_headers_are_rejected_before_waiting_for_payload() {
    for field in [0, 4, 20, 34] {
        let (mut fabric, grant) = setup(1);
        let receiver: DynamicReceiver<Number> = grant
            .subscribe(&mut fabric, SubscriptionRole::Observer)
            .unwrap();
        let mut import = importing(&mut fabric, &grant);
        let mut bytes = frame(7, 41);
        bytes[field] ^= 1;
        if field == 34 {
            bytes[34] = 5;
        }
        let mut data = Io::default();
        data.feed(&bytes[..38], false);
        import.drive(&mut fabric, &mut data, &mut Io::default());
        if field == 34 {
            assert!(matches!(
                import.result,
                Some(Err(IpcError::Oversized {
                    length: 5,
                    limit: 4
                }))
            ));
        } else {
            assert!(matches!(import.result, Some(Err(IpcError::Protocol))));
        }
        assert!(receiver.recv_now(&mut fabric).unwrap().is_none());
        assert_eq!(grant.usage(&fabric).bytes, 0);
    }
}

#[test]
fn unsupported_revisions_and_payloads_end_the_import() {
    for (position, expected) in [(22, WireError::UnsupportedRevision), (34, WireError::InvalidPayload)] {
        let (mut fabric, grant) = setup(1);
        let mut import = importing(&mut fabric, &grant);
        let mut bytes = frame(7, 41);
        bytes[position] = if position == 34 { 0 } else { 9 };
        let mut data = Io::default();
        data.feed(&bytes, false);
        import.drive(&mut fabric, &mut data, &mut Io::default());
        assert!(matches!(import.result, Some(Err(IpcError::Wire(error))) if error == expected));
        assert_eq!(grant.usage(&fabric), Limits::zero());
    }
}

#[test]
fn fragmented_frame_and_duplicate_sequence_preserve_single_admission() {
    let (mut fabric, grant) = setup(2);
    let receiver: DynamicReceiver<Number> = grant
        .subscribe(&mut fabric, SubscriptionRole::Required)
        .unwrap();
    let mut import = importing(&mut fabric, &grant);
    let (mut data, mut control) = (Io::default(), Io::default());
    control.permit_write(9);
    let bytes = frame(7, 41);
    for part in bytes.chunks(3) {
        data.feed(part, false);
        import.drive(&mut fabric, &mut data, &mut control);
    }
    assert_eq!(control.output, [1, 7, 0, 0, 0, 0, 0, 0, 0]);
    data.feed(&bytes, false);
    assert!(
        matches!(receiver.recv_now(&mut fabric).unwrap(), Some(StreamItem::Data { value, .. }) if *value == 41)
    );
    import.drive(&mut fabric, &mut data, &mut control);
    assert!(matches!(import.result, Some(Err(IpcError::Protocol))));
    assert!(receiver.recv_now(&mut fabric).unwrap().is_none());
}

#[test]
fn blocked_local_admission_cannot_hold_revocation_or_leak_credit() {
    let (mut fabric, local) = setup(1);
    let receiver: DynamicReceiver<Number> = local
        .subscribe(&mut fabric, SubscriptionRole::Required)
        .unwrap();
    local
        .sender::<Number, Single<u32>>(&mut fabric)
        .unwrap()
        .send_now(&mut fabric, 3)
        .unwrap();
    let grant = fabric
        .grant(&permission(Rights::publish()), allowance())
        .unwrap();
    let mut import = importing(&mut fabric, &grant);
    let (mut data, mut control) = (Io::default(), Io::default());
    control.permit_write(9);
    data.feed(&frame(7, 41), false);
    import.drive(&mut fabric, &mut data, &mut control);
    assert!(grant.usage(&fabric).waiters > 2);
    assert!(control.output.is_empty());
    revoke(&mut fabric, &grant);
    import.drive(&mut fabric, &mut data, &mut control);
    assert!(matches!(import.result, Some(Err(IpcError::Revoked))));
    assert!(
        matches!(receiver.recv_now(&mut fabric).unwrap(), Some(StreamItem::Data { value, .. }) if *value == 3)
    );
    assert!(receiver.recv_now(&mut fabric).unwrap().is_none());
    assert_eq!(grant.usage(&fabric).waiters, 0);
    assert_eq!(grant.usage(&fabric).connections, 0);
    assert_eq!(grant.usage(&fabric).bytes, 0);
}

#[test]
fn unsolicited_credit_flood_terminates_without_growing_buffers() {
    let (mut fabric, grant) = setup(1);
    let mut export = exporting(&mut fabric, &grant, SubscriptionRole::Observer);
    let mut control = Io::default();
    control.feed(&[1; 900], false);
    export.drive(&mut fabric, &mut Io::default(), &mut control);
    assert!(matches!(export.result, Some(Err(IpcError::Protocol))));
    assert_eq!(control.read_bytes, 9);
    assert_eq!(grant.usage(&fabric).connections, 0);
    assert_eq!(grant.usage(&fabric).bytes, 0);
    assert_eq!(grant.usage(&fabric).subscriptions, 0);
}

#[test]
fn invalid_credits_after_valid_progress_cannot_authorize_another_frame() {
    for (tag, sequence) in [(0, 1_u64), (1, 0), (1, 2)] {
        let (mut fabric, grant) = setup(2);
        let mut export = exporting(&mut fabric, &grant, SubscriptionRole::Required);
        let sender = grant.sender::<Number, Single<u32>>(&mut fabric).unwrap();
        sender.send_now(&mut fabric, 41).unwrap();
        sender.send_now(&mut fabric, 42).unwrap();
        let (mut data, mut control) = (Io::default(), Io::default());
        data.permit_write(1000);
        export.drive(&mut fabric, &mut data, &mut control);
        assert_eq!(data.output, frame(0, 41));
        control.feed(&[1, 0, 0, 0, 0, 0, 0, 0, 0], false);
        export.drive(&mut fabric, &mut data, &mut control);
        assert_eq!(data.output[42..], frame(1, 42));
        let mut credit = [tag; 9];
        credit[1..].copy_from_slice(&sequence.to_le_bytes());
        for byte in credit {
            control.feed(&[byte], false);
            export.drive(&mut fabric, &mut data, &mut control);
        }
        assert!(matches!(export.result, Some(Err(IpcError::Protocol))));
        assert_eq!(data.output.len(), 84);
        sender.release(&mut fabric);
        assert_eq!(grant.usage(&fabric), Limits::zero());
    }
}

#[test]
fn every_truncated_credit_terminates_and_releases_the_export_reservation() {
    for prefix in 0..9 {
        let (mut fabric, grant) = setup(1);
        let mut export = exporting(&mut fabric, &grant, SubscriptionRole::Required);
        grant
            .sender::<Number, Single<u32>>(&mut fabric)
            .unwrap()
            .send_now(&mut fabric, 41)
            .unwrap();
        let (mut data, mut control) = (Io::default(), Io::default());
        data.permit_write(42);
        export.drive(&mut fabric, &mut data, &mut control);
        assert_eq!(data.output, frame(0, 41));
        control.feed(&[1, 0, 0, 0, 0, 0, 0, 0, 0][..prefix], true);
        export.drive(&mut fabric, &mut data, &mut control);
        assert!(
            matches!(export.result, Some(Err(IpcError::Io(error))) if error.kind == IoKind::UnexpectedEof)
        );
        assert_eq!(grant.usage(&fabric), Limits::zero());
    }
}

#[test]
fn every_truncated_frame_rejects_admission_and_releases_reservations() {
    let bytes = frame(7, 41);
    for prefix in 0..bytes.len() {
        let (mut fabric, grant) = setup(1);
        let receiver: DynamicReceiver<Number> = grant
            .subscribe(&mut fabric, SubscriptionRole::Observer)
            .unwrap();
        let baseline = grant.usage(&fabric);
        let mut import = importing(&mut fabric, &grant);
        let mut data = Io::default();
        data.feed(&bytes[..prefix], true);
        import.drive(&mut fabric, &mut data, &mut Io::default());
        assert!(
            matches!(import.result, Some(Err(IpcError::Io(error))) if error.kind == IoKind::UnexpectedEof)
        );
        assert_eq!(receiver.recv_now(&mut fabric).unwrap(), None);
        assert_eq!(grant.usage(&fabric), baseline);
    }
}

#[test]
fn cancelling_a_partial_read_closes_sockets_and_releases_its_allowance() {
    let (mut fabric, grant) = setup(1);
    let mut import = importing(&mut fabric, &grant);
    let mut data = Io::default();
    data.feed(&frame(7, 41)[..20], false);
    import.drive(&mut fabric, &mut data, &mut Io::default());
    assert!(import.result.is_none());
    import.cancel(&mut fabric);
    assert_eq!(grant.usage(&fabric).connections, 0);
    assert_eq!(grant.usage(&fabric).bytes, 0);
    assert_eq!(grant.usage(&fabric).waiters, 0);
    assert_eq!(grant.usage(&fabric).retained_items, 0);
}

#[test]
fn observer_gap_is_reported_instead_of_silently_reordering_export() {
    let (mut fabric, grant) = setup(1);
    let mut export = exporting(&mut fabric, &grant, SubscriptionRole::Observer);
    let sender = grant.sender::<Number, Single<u32>>(&mut fabric).unwrap();
    sender.send_now(&mut fabric, 11).unwrap();
    sender.send_now(&mut fabric, 12).unwrap();
    export.drive(&mut fabric, &mut Io::default(), &mut Io::default());
    assert!(matches!(export.result, Some(Err(IpcError::Gap { from, to })) if to - from == 1));
}

#[test]
fn closed_streams_and_refused_writes_end_links() {
    let (mut fabric, grant) = setup(1);
    let mut export = exporting(&mut fabric, &grant, SubscriptionRole::Observer);
    let mut import = importing(&mut fabric, &grant);
    fabric.close_stream::<Number>().unwrap();
    export.drive(&mut fabric, &mut Io::default(), &mut Io::default());
    assert!(matches!(
        export.result,
        Some(Err(IpcError::Receive(ReceiveError::Closed(_))))
    ));
    let mut data = Io::default();
    data.feed(&frame(0, 1), false);
    import.drive(&mut fabric, &mut data, &mut Io::default());
    assert!(matches!(
        import.result,
        Some(Err(IpcError::Send(SendError::Closed(()))))
    ));

    let (mut fabric, grant) = setup(1);
    let handle = grant.duplicate(&mut fabric);
    let mut link = UnixLink::<Number>::import(&mut fabric, handle, 4).unwrap();
    link.step_import(&mut fabric, ImportEvent::Polled);
    link.step_import(&mut fabric, ImportEvent::ControlPending);
    let bytes = frame(0, 1);
    link.step_import(&mut fabric, ImportEvent::DataRead(&bytes[..38]));
    assert!(matches!(
        link.step_import(&mut fabric, ImportEvent::DataRead(&bytes[38..])),
        LinkAction::Write
    ));
    assert_eq!(
        link.outgoing_credit(&fabric),
        [1, 0, 0, 0, 0, 0, 0, 0, 0]
    );
    assert!(matches!(
        link.step_import(&mut fabric, ImportEvent::CreditWritten(0)),
        LinkAction::Done(Err(IpcError::Io(error))) if error.kind == IoKind::WriteZero
    ));
}

#[test]
fn ipc_failures_describe_themselves() {
    let cases = [
        (
            IpcError::Io(IoFailure {
                kind: IoKind::Other,
                text: "broken".to_string(),
            }),
            "IPC link I/O error: broken",
        ),
        (
            IpcError::Wire(WireError::InvalidPayload),
            "IPC wire error: payload is invalid",
        ),
        (IpcError::Revoked, "IPC link authority has been revoked"),
        (IpcError::Protocol, "IPC protocol error"),
        (
            IpcError::Oversized {
                length: 5,
                limit: 4,
            },
            "IPC payload is too large: 5 bytes exceeds 4",
        ),
        (
            IpcError::Gap { from: 3, to: 12 },
            "IPC stream gap from sequence 3 to 12",
        ),
    ];
    for (error, text) in cases {
        assert_eq!(error.message(), text);
    }
    assert_eq!(
        IpcError::Topic(TopicError::Denied).message(),
        format!("IPC topic error: {}", TopicError::Denied.message())
    );
    assert_eq!(
        IpcError::Receive(ReceiveError::WaitersFull).message(),
        format!("IPC receive error: {}", ReceiveError::WaitersFull.message())
    );
    assert_eq!(
        IpcError::Send(SendError::Revoked(())).message(),
        format!("IPC send error: {}", SendError::Revoked(()).message())
    );
}

#[test]
fn fragmented_peer_reads_with_immediate_credits_preserve_export_order() {
    let (mut fabric, grant) = setup(2);
    let sender = grant.sender::<Number, Single<u32>>(&mut fabric).unwrap();
    let mut export = exporting(&mut fabric, &grant, SubscriptionRole::Required);
    let (mut data, mut control) = (Io::default(), Io::default());
    let mut previous = None;
    for expected in 0..256 {
        assert!(matches!(
            sender.send(&mut fabric, expected),
            SendStep::Sent
        ));
        let mut bytes = Vec::new();
        while bytes.len() < 42 {
            data.permit_write(3);
            export.drive(&mut fabric, &mut data, &mut control);
            bytes.append(&mut data.output);
        }
        let sequence = u64::from_le_bytes(bytes[26..34].try_into().unwrap());
        let mut credit = [1; 9];
        credit[1..].copy_from_slice(&sequence.to_le_bytes());
        control.feed(&credit, false);
        assert_eq!(
            u32::from_le_bytes(bytes[38..42].try_into().unwrap()),
            expected
        );
        if let Some(last) = previous {
            assert_eq!(sequence, last + 1);
        }
        previous = Some(sequence);
    }
    revoke(&mut fabric, &grant);
    export.drive(&mut fabric, &mut data, &mut control);
    assert!(matches!(export.result, Some(Err(IpcError::Revoked))));
}

#[test]
fn full_credit_socket_cannot_prevent_local_revocation() {
    let (mut fabric, local) = setup(1);
    let receiver: DynamicReceiver<Number> = local
        .subscribe(&mut fabric, SubscriptionRole::Required)
        .unwrap();
    let grant = fabric
        .grant(&permission(Rights::publish()), allowance())
        .unwrap();
    let mut import = importing(&mut fabric, &grant);
    let (mut data, mut control) = (Io::default(), Io::default());
    data.feed(&frame(7, 41), false);
    import.drive(&mut fabric, &mut data, &mut control);
    assert_eq!(
        value_of(receiver.recv_now(&mut fabric).unwrap()),
        Some(StreamItem::Data {
            sequence: 0,
            value: 41
        })
    );
    revoke(&mut fabric, &grant);
    import.drive(&mut fabric, &mut data, &mut control);
    assert!(matches!(import.result, Some(Err(IpcError::Revoked))));
    assert_eq!(grant.usage(&fabric).connections, 0);
    assert_eq!(grant.usage(&fabric).bytes, 0);
}

#[test]
fn full_data_socket_cannot_block_control_termination_or_leak_reservations() {
    for finish in 0..5 {
        let (mut fabric, local) = setup(1);
        let grant = fabric
            .grant(
                &permission(Rights::observe() | Rights::required()),
                allowance(),
            )
            .unwrap();
        let mut export = exporting(&mut fabric, &grant, SubscriptionRole::Required);
        let (mut data, mut control) = (Io::default(), Io::default());
        let sender = local.sender::<Number, Single<u32>>(&mut fabric).unwrap();
        sender.send_now(&mut fabric, 41).unwrap();
        sender.release(&mut fabric);
        export.drive(&mut fabric, &mut data, &mut control);
        assert!(export.result.is_none());
        assert_eq!(local.usage(&fabric).retained_items, 0);
        assert_eq!(
            grant.usage(&fabric),
            Limits {
                subscriptions: 1,
                retained_items: 1,
                waiters: 2,
                connections: 2,
                bytes: 60,
                ..Limits::zero()
            }
        );
        match finish {
            0 => export.cancel(&mut fabric),
            1 => revoke(&mut fabric, &grant),
            2 => control.feed(&[], true),
            3 => control.feed(&[0; 9], false),
            _ => {
                control.feed(&[1, 0, 0, 0, 0, 0, 0, 0, 0], false);
                control.feed(&[1, 0, 0, 0, 0, 0, 0, 0, 0], false);
            }
        }
        export.drive(&mut fabric, &mut data, &mut control);
        match finish {
            0 => assert!(export.result.is_none()),
            1 => assert!(matches!(export.result, Some(Err(IpcError::Revoked)))),
            2 => assert!(matches!(&export.result,
                Some(Err(IpcError::Io(error))) if error.kind == IoKind::UnexpectedEof)),
            _ => assert!(matches!(export.result, Some(Err(IpcError::Protocol)))),
        }
        assert!(export.link.is_none());
        assert_eq!(grant.usage(&fabric), Limits::zero());
        assert_eq!(local.usage(&fabric), Limits::zero());
    }
}

#[derive(Clone, Copy, Debug, PartialEq)]
enum Ending {
    Cancel,
    Disconnect,
    Revoke,
    Drain,
}

struct Model {
    history: Vec<u32>,
    retained: bool,
    observer: usize,
    required: Option<usize>,
    pending: Option<u32>,
    connected: bool,
}

impl Model {
    fn new(required: bool) -> Self {
        Self {
            history: Vec::new(),
            retained: false,
            observer: 0,
            required: required.then_some(0),
            pending: None,
            connected: true,
        }
    }

    fn forward(&mut self, value: u32) {
        assert!(self.connected && self.pending.is_none());
        if self
            .required
            .is_some_and(|cursor| cursor < self.history.len())
        {
            self.pending = Some(value);
        } else {
            self.accept(value);
        }
    }

    fn accept(&mut self, value: u32) {
        self.history.push(value);
        self.retained = true;
    }

    fn receive(&mut self, required: bool) -> Option<StreamItem<u32>> {
        let end = self.history.len();
        let first = end - usize::from(self.retained);
        let cursor = if required {
            self.required.as_mut().unwrap()
        } else {
            &mut self.observer
        };
        let item = if *cursor < first {
            let from = *cursor;
            *cursor = first;
            Some(StreamItem::Gap {
                from: from as u64,
                to: first as u64,
            })
        } else if *cursor < end {
            let sequence = *cursor;
            *cursor += 1;
            Some(StreamItem::Data {
                sequence: sequence as u64,
                value: self.history[sequence],
            })
        } else {
            None
        };
        if self.observer == end && self.required.is_none_or(|cursor| cursor == end) {
            self.retained = false;
        }
        item
    }

    fn terminate(&mut self) {
        self.connected = false;
        self.pending = None;
    }

    fn usage(&self) -> Limits {
        Limits {
            retained_items: usize::from(self.retained) + usize::from(self.connected),
            waiters: 2 * usize::from(self.connected) + usize::from(self.pending.is_some()),
            connections: 2 * usize::from(self.connected),
            bytes: 60 * usize::from(self.connected),
            ..Limits::zero()
        }
    }
}

struct Session {
    fabric: Fabric,
    parent: Grant,
    child: Grant,
    local: Grant,
    observer: DynamicReceiver<Number>,
    required: Option<DynamicReceiver<Number>>,
    link: Driver,
    data: Io,
    control: Io,
    wire_sequence: u64,
}

fn session_limits() -> Limits {
    Limits {
        streams: 1,
        retained_items: 2,
        waiters: 3,
        connections: 2,
        bytes: 60,
        ..Limits::zero()
    }
}

impl Session {
    fn new(required: bool) -> Self {
        let (mut fabric, local) = setup(1);
        let permissions = [
            Permission::new::<Number>(Rights::publish()).with_limits(StreamLimits {
                retained_items: 1,
                subscriptions: 0,
                waiters: 1,
            }),
        ];
        let parent = fabric
            .grant(
                &permissions,
                Limits {
                    grants: 1,
                    ..session_limits()
                },
            )
            .unwrap();
        let child = parent
            .restrict(&mut fabric, &permissions, session_limits())
            .unwrap();
        let cloned = child.duplicate(&mut fabric);
        child.release(&mut fabric);
        let observer = local
            .subscribe(&mut fabric, SubscriptionRole::Observer)
            .unwrap();
        let required = if required {
            Some(
                local
                    .subscribe(&mut fabric, SubscriptionRole::Required)
                    .unwrap(),
            )
        } else {
            None
        };
        let link = importing(&mut fabric, &cloned);
        let mut control = Io::default();
        control.permit_write(1024);
        Self {
            fabric,
            parent,
            child: cloned,
            local,
            observer,
            required,
            link,
            data: Io::default(),
            control,
            wire_sequence: 0,
        }
    }

    fn check(&self, model: &Model) {
        assert_eq!(self.child.usage(&self.fabric), model.usage());
        assert_eq!(
            self.parent.usage(&self.fabric),
            Limits {
                grants: 1,
                ..session_limits()
            }
        );
        assert_eq!(
            self.child.stream_usage::<Number, Single<u32>>(&self.fabric).unwrap(),
            StreamLimits {
                retained_items: usize::from(model.retained),
                subscriptions: 0,
                waiters: usize::from(model.pending.is_some()),
            }
        );
    }

    fn drive(&mut self) {
        self.link
            .drive(&mut self.fabric, &mut self.data, &mut self.control);
    }

    fn credit(&mut self, sequence: u64) {
        self.drive();
        assert!(
            self.link.link.is_some(),
            "session terminated during an admitted action"
        );
        let credit: Vec<u8> = self.control.output.drain(..).collect();
        assert_eq!(credit.len(), 9);
        assert_eq!(credit[0], 1);
        assert_eq!(
            u64::from_le_bytes(credit[1..].try_into().unwrap()),
            sequence
        );
    }

    fn forward(&mut self, model: &mut Model, value: u32) {
        model.forward(value);
        self.data.feed(&frame(self.wire_sequence, value), false);
        if model.pending.is_some() {
            self.drive();
            assert_eq!(
                self.child
                    .stream_usage::<Number, Single<u32>>(&self.fabric)
                    .unwrap()
                    .waiters,
                1
            );
            assert!(self.control.output.is_empty());
        } else {
            self.credit(self.wire_sequence);
        }
        self.wire_sequence += 1;
        self.check(model);
    }

    fn receive(&mut self, model: &mut Model, required: bool) -> bool {
        let expected = model.receive(required);
        let receiver = if required {
            self.required.as_ref().unwrap()
        } else {
            &self.observer
        };
        assert_eq!(
            value_of(receiver.recv_now(&mut self.fabric).unwrap()),
            expected
        );
        self.check(model);
        expected.is_some()
    }

    fn cancel_local_waiter(&mut self, model: &Model) {
        let sender = self.local.sender::<Number, Single<u32>>(&mut self.fabric).unwrap();
        let SendStep::Wait(pending) = sender.send(&mut self.fabric, 99) else {
            panic!("a full stream must make the publication wait")
        };
        let waiters = |session: &Session| {
            session
                .local
                .stream_usage::<Number, Single<u32>>(&session.fabric)
                .unwrap()
                .waiters
        };
        assert_eq!(waiters(self), 1);
        self.check(model);
        assert_eq!(pending.cancel(&mut self.fabric), 99);
        assert_eq!(waiters(self), 0);
        self.check(model);
        sender.release(&mut self.fabric);
    }

    fn finish(&mut self, model: &mut Model, ending: Ending) {
        if ending == Ending::Drain {
            if let Some(value) = model.pending {
                assert!(self.receive(model, true));
                self.credit(self.wire_sequence - 1);
                model.pending = None;
                model.accept(value);
            }
            self.check(model);
        }
        match ending {
            Ending::Cancel => self.link.cancel(&mut self.fabric),
            Ending::Disconnect | Ending::Drain => {
                self.control.feed(&[], true);
                self.drive();
                assert!(matches!(&self.link.result,
                    Some(Err(IpcError::Io(error))) if error.kind == IoKind::UnexpectedEof));
            }
            Ending::Revoke => {
                let stale = self.child.sender::<Number, Single<u32>>(&mut self.fabric).unwrap();
                revoke(&mut self.fabric, &self.parent);
                assert!(matches!(
                    stale.send_now(&mut self.fabric, 90),
                    Err(TrySendError::Revoked(90))
                ));
                stale.release(&mut self.fabric);
                self.drive();
                assert!(matches!(self.link.result, Some(Err(IpcError::Revoked))));
            }
        }
        assert!(self.link.link.is_none());
        model.terminate();
        self.check(model);
    }
}

#[test]
fn lifecycle_model_composes_grants_streams_waits_and_unix_termination() {
    for required in [false, true] {
        for consume_first in [false, true] {
            for ending in [
                Ending::Cancel,
                Ending::Disconnect,
                Ending::Revoke,
                Ending::Drain,
            ] {
                let mut session = Session::new(required);
                let mut model = Model::new(required);
                session.check(&model);
                session.forward(&mut model, 10);
                if consume_first {
                    assert!(session.receive(&mut model, false));
                }
                session.forward(&mut model, 20);
                if model.pending.is_some() {
                    session.cancel_local_waiter(&model);
                }
                session.finish(&mut model, ending);
                while session.receive(&mut model, false) {}
                if required {
                    while session.receive(&mut model, true) {}
                }
                assert_eq!(model.usage(), Limits::zero());
                let Session {
                    mut fabric,
                    parent,
                    child,
                    local,
                    observer,
                    required,
                    ..
                } = session;
                observer.detach(&mut fabric);
                if let Some(required) = required {
                    required.detach(&mut fabric);
                }
                local.release(&mut fabric);
                child.release(&mut fabric);
                assert_eq!(parent.usage(&fabric), Limits::zero());
            }
        }
    }
}

#[test]
fn local_quota_activity_does_not_wake_an_idle_ipc_link() {
    let wakes = |link: &Driver, fabric: &mut Fabric| {
        let revoked = fabric
            .take_signals()
            .iter()
            .any(|signal| matches!(signal, Signal::Revoked(_)));
        revoked || link.link.as_ref().unwrap().awaits_stream()
    };
    let (mut fabric, grant) = setup(1);
    let sender = grant.sender::<Number, Single<u32>>(&mut fabric).unwrap();
    let receiver: DynamicReceiver<Number> = grant
        .subscribe(&mut fabric, SubscriptionRole::Required)
        .unwrap();
    let mut import = importing(&mut fabric, &grant);
    import.drive(&mut fabric, &mut Io::default(), &mut Io::default());
    assert!(import.link.is_some());
    for expected in 0..1024 {
        sender.send_now(&mut fabric, expected).unwrap();
        assert_eq!(
            value_of(receiver.recv_now(&mut fabric).unwrap()),
            Some(StreamItem::Data {
                sequence: u64::from(expected),
                value: expected
            })
        );
        assert!(!wakes(&import, &mut fabric));
    }
    revoke(&mut fabric, &grant);
    assert!(wakes(&import, &mut fabric));
    import.drive(&mut fabric, &mut Io::default(), &mut Io::default());
    assert!(matches!(import.result, Some(Err(IpcError::Revoked))));
}

#[test]
fn payload_buffers_are_zeros_or_a_failure() {
    assert_eq!(payload_buffer(0).unwrap(), Vec::<u8>::new());
    assert_eq!(payload_buffer(4).unwrap(), vec![0; 4]);
    assert!(matches!(
        payload_buffer(usize::MAX),
        Err(IpcError::Topic(TopicError::Capacity))
    ));
    assert_eq!(filled(Some(Vec::new()), 3).unwrap(), vec![0; 3]);
    assert!(matches!(
        filled(None, 3),
        Err(IpcError::Topic(TopicError::Capacity))
    ));
}

#[test]
fn links_without_a_payload_buffer_leave_nothing_behind() {
    let (mut fabric, grant) = setup(1);
    let capacity = |error: Option<IpcError>| {
        matches!(error, Some(IpcError::Topic(TopicError::Capacity)))
    };
    let handle = grant.duplicate(&mut fabric);
    assert!(capacity(
        UnixImport::<Number>::bind_with(&mut fabric, handle, 4, None).err()
    ));
    let handle = grant.duplicate(&mut fabric);
    let role = SubscriptionRole::Required;
    assert!(capacity(
        UnixExport::<Number>::bind_with(&mut fabric, handle, role, 4, None).err()
    ));
    let handle = grant.duplicate(&mut fabric);
    assert!(capacity(
        UnixLink::<Number>::import_with(&mut fabric, handle, 4, None).err()
    ));
    let handle = grant.duplicate(&mut fabric);
    assert!(capacity(
        UnixLink::<Number>::export_with(&mut fabric, handle, role, 4, None).err()
    ));
    for (first, second) in [(None, None), (None, Some(vec![])), (Some(vec![]), None)] {
        let handle = grant.duplicate(&mut fabric);
        assert!(capacity(
            UnixLink::<Number>::relay_with(&mut fabric, handle, role, 4, first, second).err()
        ));
    }
    assert_eq!(grant.usage(&fabric), Limits::zero());

    let handle = grant.duplicate(&mut fabric);
    let link =
        UnixLink::<Number>::relay_with(&mut fabric, handle, role, 4, Some(vec![]), Some(vec![]))
            .unwrap();
    assert_eq!(grant.usage(&fabric).connections, 4);
    assert_eq!(grant.usage(&fabric).bytes, 120);
    link.cancel(&mut fabric);
    assert_eq!(grant.usage(&fabric), Limits::zero());
    let handle = grant.duplicate(&mut fabric);
    let link = UnixLink::<Number>::import_with(&mut fabric, handle, 4, Some(vec![])).unwrap();
    assert_eq!(grant.usage(&fabric).bytes, 60);
    link.cancel(&mut fabric);
    let handle = grant.duplicate(&mut fabric);
    let link = UnixLink::<Number>::export_with(&mut fabric, handle, role, 4, Some(vec![])).unwrap();
    assert_eq!(grant.usage(&fabric).subscriptions, 1);
    link.cancel(&mut fabric);
    assert_eq!(grant.usage(&fabric), Limits::zero());
}

#[test]
fn a_relay_ends_with_a_failure_of_either_leg_or_when_both_are_done() {
    assert!(relay_end(None, None).is_none());
    assert!(relay_end(Some(Ok(())), None).is_none());
    assert!(relay_end(None, Some(Ok(()))).is_none());
    assert!(matches!(relay_end(Some(Ok(())), Some(Ok(()))), Some(Ok(()))));
    assert!(matches!(
        relay_end(Some(Err(IpcError::Revoked)), None),
        Some(Err(IpcError::Revoked))
    ));
    assert!(matches!(
        relay_end(None, Some(Err(IpcError::Protocol))),
        Some(Err(IpcError::Protocol))
    ));
    assert!(matches!(
        relay_end(Some(Err(IpcError::Revoked)), Some(Err(IpcError::Protocol))),
        Some(Err(IpcError::Revoked))
    ));
}
