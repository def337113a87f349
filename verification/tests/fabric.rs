use hiway::endpoint::{DynamicReceiver, ReceiveStep, SendStep};
use hiway::error::{
    CloseReason, PortError, ReceiveError, SendError, TopicError, TopicTypeMismatch, TrySendError,
};
use hiway::event::{EventId, EventSpec};
use hiway::fabric::DynamicFabric;
use hiway::fabric_model::StreamConfig;
use hiway::grant::{Limits, Permission, Rights, StreamLimits};
use hiway::item::{StreamItem, SubscriptionRole};
use hiway::ledger::{Grant, Revocation};
use hiway::payload::{Carries, Payloads, Shared};

struct Number;

impl EventSpec for Number {
    type Payload = u32;
    const ID: EventId = EventId(5);
}

struct Other;

impl EventSpec for Other {
    type Payload = u32;
    const ID: EventId = EventId(6);
}

struct Renamed;

impl EventSpec for Renamed {
    type Payload = String;
    const ID: EventId = EventId(5);
}

struct NextMajor;

impl EventSpec for NextMajor {
    type Payload = u32;
    const ID: EventId = EventId(5);
    const WIRE_MAJOR: u16 = 2;
}

struct Label;

impl EventSpec for Label {
    type Payload = String;
    const ID: EventId = EventId(8);
}

/// Carries numbers and texts.
#[derive(Debug, PartialEq)]
enum Values {
    Number(u32),
    Text(String),
}

impl Payloads for Values {}

impl Carries<u32> for Values {
    const PAYLOAD: u64 = 1;

    fn carry(payload: u32) -> Self {
        Values::Number(payload)
    }

    fn unload(self) -> u32 {
        match self {
            Values::Number(payload) => payload,
            Values::Text(_) => unreachable!("a text in a stream of numbers"),
        }
    }

    fn look(&self) -> &u32 {
        match self {
            Values::Number(payload) => payload,
            Values::Text(_) => unreachable!("a text in a stream of numbers"),
        }
    }
}

impl Carries<String> for Values {
    const PAYLOAD: u64 = 2;

    fn carry(payload: String) -> Self {
        Values::Text(payload)
    }

    fn unload(self) -> String {
        match self {
            Values::Text(payload) => payload,
            Values::Number(_) => unreachable!("a number in a stream of texts"),
        }
    }

    fn look(&self) -> &String {
        match self {
            Values::Text(payload) => payload,
            Values::Number(_) => unreachable!("a number in a stream of texts"),
        }
    }
}

type Fabric = DynamicFabric<Values>;

fn all_rights() -> Rights {
    Rights::publish() | Rights::observe() | Rights::required()
}

fn config(capacity: usize) -> StreamConfig {
    StreamConfig {
        capacity,
        subscribers: 2,
        waiters: 2,
    }
}

fn allowance() -> Limits {
    Limits {
        streams: 1,
        grants: 2,
        subscriptions: 2,
        retained_items: 4,
        waiters: 2,
        ..Limits::zero()
    }
}

fn setup(capacity: usize) -> (Fabric, Grant) {
    let mut fabric = Fabric::new();
    fabric.create_stream::<Number>(config(capacity)).unwrap();
    let grant = fabric
        .grant(
            &[
                Permission::new::<Number>(all_rights()).with_limits(StreamLimits {
                    retained_items: 4,
                    subscriptions: 2,
                    waiters: 2,
                }),
            ],
            allowance(),
        )
        .unwrap();
    (fabric, grant)
}

fn subscribe(fabric: &mut Fabric, grant: &Grant, role: SubscriptionRole) -> DynamicReceiver<Number> {
    grant.subscribe(fabric, role).unwrap()
}

fn plain(
    item: Result<Option<StreamItem<Shared<u32, Values>>>, ReceiveError>,
) -> Result<Option<StreamItem<u32>>, ReceiveError> {
    item.map(|item| item.map(|item| item.map(|value| *value)))
}

fn data(sequence: u64, value: u32) -> Result<Option<StreamItem<u32>>, ReceiveError> {
    Ok(Some(StreamItem::Data { sequence, value }))
}

fn revoke(fabric: &mut Fabric, grant: &Grant) {
    assert_eq!(fabric.begin_revocation(grant), Ok(Revocation::Pending));
    assert!(fabric.settle_revocation(grant));
    fabric.end_revocation(grant);
}

#[test]
fn declarations_are_checked_and_idempotent() {
    let mut fabric = Fabric::new();
    assert_eq!(
        fabric.create_stream::<Number>(config(0)),
        Err(TopicError::InvalidConfig)
    );
    assert_eq!(
        fabric.create_stream::<Number>(config(usize::MAX)),
        Err(TopicError::InvalidConfig)
    );
    assert_eq!(
        fabric.create_stream::<Number>(config(65537)),
        Err(TopicError::Capacity)
    );
    assert_eq!(fabric.create_stream::<Number>(config(4)), Ok(()));
    assert_eq!(fabric.create_stream::<Number>(config(4)), Ok(()));
    assert_eq!(
        fabric.usage(),
        Limits {
            streams: 1,
            retained_items: 4,
            subscriptions: 2,
            waiters: 2,
            ..Limits::zero()
        }
    );
    assert_eq!(
        fabric.create_stream::<Number>(config(5)),
        Err(TopicError::InvalidConfig)
    );
    assert_eq!(
        fabric.create_stream::<NextMajor>(config(4)),
        Err(TopicError::InvalidConfig)
    );
    assert_eq!(
        fabric.create_stream::<Renamed>(config(4)),
        Err(TopicError::TypeMismatch(TopicTypeMismatch { id: EventId(5) }))
    );
    assert_eq!(fabric.close_stream::<Other>(), Err(TopicError::Denied));
    assert_eq!(fabric.close_stream::<Number>(), Ok(()));
    assert_eq!(
        fabric.create_stream::<Number>(config(4)),
        Err(TopicError::InvalidConfig)
    );
}

#[test]
fn scopes_start_empty_with_the_allowances_asked_for() {
    let fabric = Fabric::with_limits(allowance()).unwrap();
    assert_eq!(fabric.usage(), Limits::zero());
    assert!(matches!(
        Fabric::with_limits(Limits {
            bytes: usize::MAX,
            ..allowance()
        }),
        Err(TopicError::InvalidConfig)
    ));
    assert_eq!(StreamConfig::default().capacity, 64);
    assert_eq!(Limits::default().bytes, 67_108_864);
}

#[test]
fn receivers_get_what_was_sent_in_order_and_exactly_once() {
    let (mut fabric, grant) = setup(4);
    let sender = grant.sender::<Number, Values>(&mut fabric).unwrap();
    let first = subscribe(&mut fabric, &grant, SubscriptionRole::Required);
    let second = subscribe(&mut fabric, &grant, SubscriptionRole::Observer);
    for value in [7, 8] {
        sender.send_now(&mut fabric, value).unwrap();
    }
    for receiver in [&first, &second] {
        assert_eq!(plain(receiver.recv_now(&mut fabric)), data(0, 7));
        assert_eq!(plain(receiver.recv_now(&mut fabric)), data(1, 8));
        assert_eq!(plain(receiver.recv_now(&mut fabric)), Ok(None));
    }
    assert_eq!(grant.usage(&fabric).retained_items, 0);
}

#[test]
fn required_receivers_hold_capacity_and_observers_see_gaps() {
    let (mut fabric, grant) = setup(1);
    let sender = grant.sender::<Number, Values>(&mut fabric).unwrap();
    let observer = subscribe(&mut fabric, &grant, SubscriptionRole::Observer);
    sender.send_now(&mut fabric, 1).unwrap();
    sender.send_now(&mut fabric, 2).unwrap();
    assert_eq!(
        plain(observer.recv_now(&mut fabric)),
        Ok(Some(StreamItem::Gap { from: 0, to: 1 }))
    );
    assert_eq!(plain(observer.recv_now(&mut fabric)), data(1, 2));
    let required = subscribe(&mut fabric, &grant, SubscriptionRole::Required);
    sender.send_now(&mut fabric, 3).unwrap();
    assert_eq!(
        sender.send_now(&mut fabric, 4),
        Err(TrySendError::Full(4))
    );
    required.detach(&mut fabric);
    sender.send_now(&mut fabric, 4).unwrap();
}

#[test]
fn strict_operations_leave_reclamation_to_maintenance() {
    let (mut fabric, grant) = setup(1);
    let sender = grant.sender::<Number, Values>(&mut fabric).unwrap();
    let observer = subscribe(&mut fabric, &grant, SubscriptionRole::Observer);
    let prepared = sender.prepare(&mut fabric, 1).unwrap();
    assert!(prepared.try_send(&mut fabric).is_ok());
    let prepared = sender.prepare(&mut fabric, 2).unwrap();
    let Err(TrySendError::MaintenanceRequired(prepared)) = prepared.try_send(&mut fabric) else {
        panic!("a full stream must ask for maintenance")
    };
    fabric.maintain();
    assert!(prepared.try_send(&mut fabric).is_ok());
    assert_eq!(
        plain(observer.try_recv(&mut fabric)),
        Ok(Some(StreamItem::Gap { from: 0, to: 1 }))
    );
    assert_eq!(plain(observer.try_recv(&mut fabric)), data(1, 2));
    assert_eq!(grant.usage(&fabric).retained_items, 1);
    fabric.maintain();
    assert_eq!(grant.usage(&fabric).retained_items, 0);
    let prepared = sender.prepare(&mut fabric, 3).unwrap();
    assert_eq!(grant.usage(&fabric).retained_items, 1);
    assert_eq!(prepared.into_inner(&mut fabric), 3);
    assert_eq!(grant.usage(&fabric).retained_items, 0);
}

#[test]
fn waiting_publications_are_bounded_and_go_on_once_there_is_room() {
    let (mut fabric, grant) = setup(1);
    let sender = grant.sender::<Number, Values>(&mut fabric).unwrap();
    let required = subscribe(&mut fabric, &grant, SubscriptionRole::Required);
    assert!(matches!(sender.send(&mut fabric, 1), SendStep::Sent));
    let SendStep::Wait(first) = sender.send(&mut fabric, 2) else {
        panic!("must wait")
    };
    let SendStep::Wait(second) = sender.send(&mut fabric, 3) else {
        panic!("must wait")
    };
    assert!(matches!(
        sender.send(&mut fabric, 4),
        SendStep::Rejected(SendError::WaitersFull(4))
    ));
    assert_eq!(second.cancel(&mut fabric), 3);
    let SendStep::Wait(first) = sender.resend(&mut fabric, first) else {
        panic!("must wait")
    };
    assert_eq!(plain(required.recv_now(&mut fabric)), data(0, 1));
    assert!(matches!(
        sender.resend(&mut fabric, first),
        SendStep::Sent
    ));
    assert_eq!(grant.usage(&fabric).waiters, 0);
    assert_eq!(plain(required.recv_now(&mut fabric)), data(1, 2));
}

#[test]
fn waiting_receives_end_with_data_or_closure() {
    let (mut fabric, grant) = setup(1);
    let sender = grant.sender::<Number, Values>(&mut fabric).unwrap();
    let receiver = subscribe(&mut fabric, &grant, SubscriptionRole::Observer);
    let ReceiveStep::Wait(pending) = receiver.recv(&mut fabric) else {
        panic!("must wait")
    };
    let ReceiveStep::Wait(other) = receiver.recv(&mut fabric) else {
        panic!("must wait")
    };
    assert!(matches!(
        receiver.recv(&mut fabric),
        ReceiveStep::Failed(ReceiveError::WaitersFull)
    ));
    other.cancel(&receiver, &mut fabric);
    sender.send_now(&mut fabric, 9).unwrap();
    assert!(matches!(
        receiver.recv_again(&mut fabric, pending),
        ReceiveStep::Received(StreamItem::Data { sequence: 0, value }) if *value == 9
    ));
    let ReceiveStep::Wait(pending) = receiver.recv(&mut fabric) else {
        panic!("must wait")
    };
    fabric.close_stream::<Number>().unwrap();
    assert!(matches!(
        receiver.recv_again(&mut fabric, pending),
        ReceiveStep::Failed(ReceiveError::Closed(CloseReason::Closed))
    ));
    assert_eq!(
        sender.send_now(&mut fabric, 1),
        Err(TrySendError::Closed(1))
    );
    assert!(matches!(
        sender.send(&mut fabric, 2),
        SendStep::Rejected(SendError::Closed(2))
    ));
    assert_eq!(grant.usage(&fabric).waiters, 0);
}

#[test]
fn publisher_quota_is_returned_by_consumption() {
    let (mut fabric, grant) = setup(4);
    let limited = grant
        .restrict(
            &mut fabric,
            &[
                Permission::new::<Number>(Rights::publish()).with_limits(StreamLimits {
                    retained_items: 1,
                    ..StreamLimits::zero()
                }),
            ],
            Limits {
                streams: 1,
                retained_items: 1,
                ..Limits::zero()
            },
        )
        .unwrap();
    assert_eq!(
        limited.limits(&fabric),
        Limits {
            streams: 1,
            retained_items: 1,
            ..Limits::zero()
        }
    );
    assert_eq!(
        limited
            .stream_limits::<Number, Values>(&fabric)
            .unwrap()
            .retained_items,
        1
    );
    let required = subscribe(&mut fabric, &grant, SubscriptionRole::Required);
    let sender = limited.sender::<Number, Values>(&mut fabric).unwrap();
    let copy = sender.duplicate(&mut fabric);
    sender.send_now(&mut fabric, 1).unwrap();
    assert_eq!(copy.send_now(&mut fabric, 2), Err(TrySendError::Full(2)));
    assert_eq!(plain(required.recv_now(&mut fabric)), data(0, 1));
    assert_eq!(copy.send_now(&mut fabric, 2), Ok(()));
    copy.release(&mut fabric);
    let other: Result<DynamicReceiver<Number>, TopicError> =
        limited.subscribe(&mut fabric, SubscriptionRole::Observer);
    assert!(matches!(other, Err(TopicError::Denied)));
    assert!(matches!(
        limited.sender::<Other, Values>(&mut fabric),
        Err(TopicError::Denied)
    ));
    assert!(matches!(
        grant.sender::<Renamed, Values>(&mut fabric),
        Err(TopicError::TypeMismatch(_))
    ));
}

#[test]
fn revocation_cuts_off_the_subtree_for_good() {
    let (mut fabric, grant) = setup(2);
    let child = grant
        .restrict(&mut fabric, &[], Limits::zero())
        .unwrap();
    let sender = grant.sender::<Number, Values>(&mut fabric).unwrap();
    let receiver = subscribe(&mut fabric, &grant, SubscriptionRole::Required);
    sender.send_now(&mut fabric, 1).unwrap();
    revoke(&mut fabric, &grant);
    assert!(grant.is_revoked(&fabric));
    assert!(child.is_revoked(&fabric));
    assert_eq!(
        sender.send_now(&mut fabric, 2),
        Err(TrySendError::Revoked(2))
    );
    assert!(matches!(
        sender.send(&mut fabric, 3),
        SendStep::Rejected(SendError::Revoked(3))
    ));
    assert_eq!(
        plain(receiver.recv_now(&mut fabric)),
        Err(ReceiveError::Closed(CloseReason::Revoked))
    );
    assert!(matches!(
        grant.sender::<Number, Values>(&mut fabric),
        Err(TopicError::Revoked)
    ));
    assert!(matches!(
        grant.restrict(&mut fabric, &[], Limits::zero()),
        Err(TopicError::Revoked)
    ));
    assert_eq!(fabric.begin_revocation(&grant), Ok(Revocation::Complete));
    assert!(!fabric.take_signals().is_empty());
    assert!(fabric.take_signals().is_empty());
}

#[test]
fn failures_keep_their_payload_and_describe_themselves() {
    let cases: [(TrySendError<u8>, &str); 7] = [
        (
            TrySendError::Full(1),
            "required receiver has exhausted stream capacity",
        ),
        (TrySendError::Contended(1), "stream state is contended"),
        (
            TrySendError::MaintenanceRequired(1),
            "retained storage needs maintenance",
        ),
        (TrySendError::Closed(1), "endpoint is closed"),
        (
            TrySendError::Revoked(1),
            "endpoint authority has been revoked",
        ),
        (TrySendError::WaitersFull(1), "waiter storage is full"),
        (
            TrySendError::SequenceExhausted(1),
            "stream sequence is exhausted",
        ),
    ];
    for (error, text) in cases {
        assert_eq!(error.message(), text);
        assert_eq!(error.map(|value| value + 1).into_inner(), 2);
    }
    let cases: [(SendError<u8>, &str); 4] = [
        (SendError::Closed(1), "endpoint is closed"),
        (SendError::Revoked(1), "endpoint authority has been revoked"),
        (SendError::WaitersFull(1), "waiter storage is full"),
        (
            SendError::SequenceExhausted(1),
            "stream sequence is exhausted",
        ),
    ];
    for (error, text) in cases {
        assert_eq!(error.message(), text);
        assert_eq!(error.map(|value| value + 1).into_inner(), 2);
    }
    for (error, text) in [
        (TopicError::Contended, "capability state is contended"),
        (
            TopicError::TypeMismatch(TopicTypeMismatch { id: EventId(255) }),
            "event ID 000000000000000000000000000000ff is already bound to another payload type",
        ),
        (TopicError::Capacity, "resource allowance is exhausted"),
        (
            TopicError::Denied,
            "operation is not permitted by this grant",
        ),
        (TopicError::Revoked, "grant has been revoked"),
        (TopicError::InvalidConfig, "invalid stream configuration"),
    ] {
        assert_eq!(error.message(), text);
        assert_eq!(PortError::Topic(error).message(), text);
    }
    for (error, text) in [
        (ReceiveError::Contended, "stream state is contended"),
        (ReceiveError::WaitersFull, "waiter storage is full"),
        (
            ReceiveError::Closed(CloseReason::Closed),
            "endpoint terminated: closed",
        ),
        (
            ReceiveError::Closed(CloseReason::Revoked),
            "endpoint terminated: revoked",
        ),
        (
            ReceiveError::Closed(CloseReason::Disconnected),
            "endpoint terminated: disconnected",
        ),
    ] {
        assert_eq!(error.message(), text);
    }
}

#[test]
fn permissions_without_capacity_bind_nothing() {
    let (mut fabric, _grant) = setup(1);
    let bare = fabric
        .grant(&[Permission::new::<Number>(all_rights())], allowance())
        .unwrap();
    assert!(matches!(
        bare.sender::<Number, Values>(&mut fabric),
        Err(TopicError::Capacity)
    ));
    let receiver: Result<DynamicReceiver<Number>, TopicError> =
        bare.subscribe(&mut fabric, SubscriptionRole::Observer);
    assert!(matches!(receiver, Err(TopicError::Capacity)));
    assert_eq!(bare.usage(&fabric), Limits::zero());
}

#[test]
fn streams_without_room_for_their_storage_are_not_charged() {
    let huge = isize::MAX as usize;
    let mut fabric = Fabric::with_limits(Limits {
        retained_items: huge,
        subscriptions: huge,
        ..allowance()
    })
    .unwrap();
    assert_eq!(
        fabric.create_stream::<Number>(config(huge)),
        Err(TopicError::Capacity)
    );
    assert_eq!(
        fabric.create_stream::<Number>(StreamConfig {
            subscribers: huge,
            ..config(1)
        }),
        Err(TopicError::Capacity)
    );
    assert_eq!(fabric.usage(), Limits::zero());
    assert_eq!(fabric.create_stream::<Number>(config(1)), Ok(()));
    assert_eq!(fabric.usage().retained_items, 1);
}

#[test]
fn events_with_different_payload_types_share_a_scope() {
    let mut fabric = Fabric::new();
    fabric.create_stream::<Number>(config(2)).unwrap();
    fabric.create_stream::<Label>(config(2)).unwrap();
    let grant = fabric
        .grant(
            &[Number::ID, Label::ID].map(|event| Permission {
                event,
                rights: all_rights(),
                limits: StreamLimits {
                    retained_items: 2,
                    subscriptions: 1,
                    waiters: 1,
                },
            }),
            Limits {
                streams: 2,
                ..allowance()
            },
        )
        .unwrap();
    let numbers = grant.sender::<Number, Values>(&mut fabric).unwrap();
    let labels = grant.sender::<Label, Values>(&mut fabric).unwrap();
    let role = SubscriptionRole::Required;
    let number = grant.subscribe::<Number, Values>(&mut fabric, role).unwrap();
    let label = grant.subscribe::<Label, Values>(&mut fabric, role).unwrap();
    assert_eq!(
        grant.sender::<Renamed, Values>(&mut fabric).err(),
        Some(TopicError::TypeMismatch(TopicTypeMismatch { id: Number::ID }))
    );
    numbers.send_now(&mut fabric, 7).unwrap();
    for text in ["a", "b"] {
        labels.send_now(&mut fabric, text.to_owned()).unwrap();
    }
    assert_eq!(
        labels.send_now(&mut fabric, "c".to_owned()),
        Err(TrySendError::Full("c".to_owned()))
    );
    let prepared = numbers.prepare(&mut fabric, 8).ok().unwrap();
    assert_eq!(prepared.into_inner(&mut fabric), 8);
    let Some(StreamItem::Data { sequence: 0, value }) = number.recv_now(&mut fabric).unwrap() else {
        panic!("the number was not received");
    };
    assert_eq!((*value, *value.duplicate().get()), (7, 7));
    for text in ["a", "b"] {
        assert!(matches!(
            label.recv_now(&mut fabric).unwrap(),
            Some(StreamItem::Data { value, .. }) if value.as_str() == text
        ));
    }
}

#[test]
fn public_items_stand_at_the_crate_root() {
    let mut fabric = hiway::DynamicFabric::<hiway::Single<u32>>::new();
    let config: hiway::StreamConfig = config(1);
    assert_eq!(fabric.create_stream::<Number>(config), Ok(()));
    assert_eq!(
        hiway::EventId::from_name("fabric-tests::root"),
        EventId::from_name("fabric-tests::root")
    );
    assert_eq!(hiway::Limits::zero(), Limits::zero());
}
