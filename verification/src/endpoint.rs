//! Scoped publishers and subscriptions.
use crate::derive_laws::splits;
use crate::error::{CloseReason, ReceiveError, SendError, TopicError, TrySendError};
use crate::event::EventSpec;
use crate::fabric::{declaration, declared, unshared, DynamicFabric};
use crate::fabric_laws::{enduring, enduring_but, fewer, fewer_but, lasting, settled, stays};
use crate::fabric_model::{one_subscription, ReceiveVerdict, Refusal, SendVerdict};
use crate::fabric_steps::{same_declared, same_members, steady};
use crate::grant::{Limits, Permission, StreamLimits, RESOURCES};
use crate::item::{StreamItem, SubscriptionRole};
use crate::ledger::{Grant, Lease, Ledger};
use crate::ledger_model::Owner;
use crate::payload::{Carries, Payloads, Shared};
use std::marker::PhantomData;
use std::sync::Arc;
use vstd::prelude::*;

verus! {

broadcast use {Ledger::lemma_wf, DynamicFabric::lemma_wf};

impl Grant {
    /// Another handle to the same grant.
    pub fn duplicate<P: Payloads>(&self, fabric: &mut DynamicFabric<P>) -> (copy: Grant)
        requires
            old(fabric).wf(),
            old(fabric).knows(self),
            old(fabric)@.ledger.nodes[self.node() as int].handles < usize::MAX,
        ensures
            final(fabric).wf(),
            final(fabric).root() == old(fabric).root(),
            final(fabric)@ == old(fabric)@.with_handles(self.node(), 1),
            copy.node() == self.node(),
            final(fabric).knows(&copy),
    {
        fabric.copy_grant(self)
    }

    /// Gives up this handle. With the last one the reservation returns to the parent,
    /// once nothing is charged any more.
    pub fn release<P: Payloads>(self, fabric: &mut DynamicFabric<P>)
        requires
            old(fabric).wf(),
            old(fabric).knows(&self),
            self.node() != old(fabric).root(),
        ensures
            final(fabric).wf(),
            final(fabric).root() == old(fabric).root(),
            final(fabric)@ == old(fabric)@.drop_handle(self.node()),
            enduring(old(fabric)@.ledger, final(fabric)@.ledger),
            settled(old(fabric)@.ledger, final(fabric)@.ledger, self.node(), -1),
            final(fabric)@.streams.len() == old(fabric)@.streams.len(),
            fewer(old(fabric)@.ledger, final(fabric)@.ledger),
            same_members(old(fabric)@, final(fabric)@),
    {
        fabric.give_up(self)
    }

    /// Reserves a child allowance and attenuates event permissions.
    ///
    /// # Errors
    ///
    /// Fails as [`Ledger::restrict`] does; failed requests retain no reservations.
    pub fn restrict<P: Payloads>(
        &self,
        fabric: &mut DynamicFabric<P>,
        permissions: &[Permission],
        limits: Limits,
    ) -> (result: Result<Grant, TopicError>)
        requires
            old(fabric).wf(),
            old(fabric).knows(self),
        ensures
            final(fabric).wf(),
            final(fabric).root() == old(fabric).root(),
            ({
                let v = old(fabric)@;
                match v.ledger.restrict_error(self.node(), permissions@, limits) {
                    Some(error) => result == Err::<Grant, TopicError>(error) && final(fabric)@
                        == v.with_ledger(
                        v.ledger.refuse_restrict(self.node(), permissions@, limits),
                    ),
                    None => {
                        &&& result matches Ok(child)
                        &&& child.node() == v.ledger.free_slot(0)
                        &&& child.node() != old(fabric).root()
                        &&& final(fabric).knows(&child)
                        &&& splits(limits, permissions@)
                        &&& final(fabric)@ == v.with_ledger(
                            v.ledger.restrict(self.node(), permissions@, limits),
                        )
                    },
                }
            }),
    {
        fabric.derive(self, permissions, limits)
    }

    /// Returns this grant's finite allowance.
    pub fn limits<P: Payloads>(&self, fabric: &DynamicFabric<P>) -> (limits: Limits)
        requires
            fabric.wf(),
            fabric.knows(self),
        ensures
            limits == fabric@.ledger.nodes[self.node() as int].limits,
    {
        fabric.ledger().limits(self)
    }

    /// Returns the reserved data-plane allowance for an event, including after revocation.
    ///
    /// # Errors
    ///
    /// Returns [`TopicError::Denied`] if the event is absent from this grant.
    pub fn stream_limits<E: EventSpec, P: Payloads>(
        &self,
        fabric: &DynamicFabric<P>,
    ) -> (result: Result<
        StreamLimits,
        TopicError,
    >)
        requires
            fabric.wf(),
            fabric.knows(self),
        ensures
            match fabric@.ledger.nodes[self.node() as int].position(E::ID) {
                Some(index) => result == Ok::<StreamLimits, TopicError>(
                    fabric@.ledger.nodes[self.node() as int].allowances[index as int].permission.limits,
                ),
                None => result == Err::<StreamLimits, TopicError>(TopicError::Denied),
            },
    {
        fabric.ledger().stream_limits(self, E::ID)
    }

    /// Returns direct event usage plus reservations for descendants of that event.
    ///
    /// # Errors
    ///
    /// Returns [`TopicError::Denied`] if the event is absent from this grant.
    pub fn stream_usage<E: EventSpec, P: Payloads>(
        &self,
        fabric: &DynamicFabric<P>,
    ) -> (result: Result<
        StreamLimits,
        TopicError,
    >)
        requires
            fabric.wf(),
            fabric.knows(self),
        ensures
            match fabric@.ledger.nodes[self.node() as int].position(E::ID) {
                Some(index) => {
                    let used =
                        fabric@.ledger.nodes[self.node() as int].allowances[index as int].pool.used;
                    result == Ok::<StreamLimits, TopicError>(
                        StreamLimits {
                            retained_items: used.retained_items,
                            subscriptions: used.subscriptions,
                            waiters: used.waiters,
                        },
                    )
                },
                None => result == Err::<StreamLimits, TopicError>(TopicError::Denied),
            },
    {
        fabric.ledger().stream_usage(self, E::ID)
    }

    /// Returns direct usage plus child reservations.
    pub fn usage<P: Payloads>(&self, fabric: &DynamicFabric<P>) -> (usage: Limits)
        requires
            fabric.wf(),
            fabric.knows(self),
        ensures
            forall|k: int|
                0 <= k < RESOURCES ==> #[trigger] usage.get(k)
                    == fabric@.ledger.nodes[self.node() as int].used(k),
            usage.within(fabric@.ledger.nodes[self.node() as int].limits),
    {
        fabric.ledger().usage(self)
    }

    /// Returns whether this grant or an ancestor has been revoked.
    pub fn is_revoked<P: Payloads>(&self, fabric: &DynamicFabric<P>) -> (revoked: bool)
        requires
            fabric.wf(),
            fabric.knows(self),
        ensures
            revoked == fabric@.ledger.nodes[self.node() as int].revoked,
    {
        fabric.ledger().is_revoked(self)
    }

    /// Resolves the publication capability without creating a stream.
    ///
    /// # Errors
    ///
    /// Returns [`TopicError`] for missing publication rights, revocation, an unknown or
    /// incompatible declaration, exhausted notification slots, or a zero event-item
    /// allowance.
    pub fn sender<E: EventSpec, P: Carries<E::Payload>>(
        &self,
        fabric: &mut DynamicFabric<P>,
    ) -> (result: Result<
        DynamicSender<E>,
        TopicError,
    >)
        requires
            old(fabric).wf(),
            old(fabric).knows(self),
            self.node() != old(fabric).root(),
            old(fabric)@.ledger.nodes[self.node() as int].handles < usize::MAX,
        ensures
            final(fabric).wf(),
            final(fabric).root() == old(fabric).root(),
            ({
                let (found, after) = old(fabric)@.sender(self.node(), declared::<E, P>());
                &&& final(fabric)@ == after
                &&& match found {
                    Ok(s) => {
                        &&& result matches Ok(sender)
                        &&& sender.stream() == s
                        &&& sender.node() == self.node()
                        &&& sender.valid(final(fabric))
                    },
                    Err(error) => result == Err::<DynamicSender<E>, TopicError>(error),
                }
            }),
            enduring(old(fabric)@.ledger, final(fabric)@.ledger),
            settled(
                old(fabric)@.ledger,
                final(fabric)@.ledger,
                self.node(),
                if result is Ok {
                    1
                } else {
                    0
                },
            ),
            final(fabric)@.streams.len() == old(fabric)@.streams.len(),
            fewer(old(fabric)@.ledger, final(fabric)@.ledger),
    {
        match fabric.open_sender(self, declaration::<E, P>()) {
            Ok((stream, grant)) => Ok(DynamicSender { stream, grant, marker: PhantomData }),
            Err(error) => Err(error),
        }
    }

    /// Acquires a subscription at the current tail.
    ///
    /// # Errors
    ///
    /// Returns [`TopicError`] for missing role rights, revocation, a closed or incompatible
    /// stream, or exhausted subscription/notification capacity. Required membership needs
    /// both observation and required-receiver rights.
    pub fn subscribe<E: EventSpec, P: Carries<E::Payload>>(
        &self,
        fabric: &mut DynamicFabric<P>,
        role: SubscriptionRole,
    ) -> (result: Result<DynamicReceiver<E>, TopicError>)
        requires
            old(fabric).wf(),
            old(fabric).knows(self),
            self.node() != old(fabric).root(),
            old(fabric)@.ledger.nodes[self.node() as int].handles < usize::MAX,
        ensures
            final(fabric).wf(),
            final(fabric).root() == old(fabric).root(),
            ({
                let (found, after) = old(fabric)@.subscribe(self.node(), declared::<E, P>(), role);
                &&& final(fabric)@ == after
                &&& match found {
                    Ok((s, index)) => {
                        &&& result matches Ok(receiver)
                        &&& receiver.stream() == s
                        &&& receiver.index() == index
                        &&& receiver.node() == self.node()
                        &&& receiver.valid(final(fabric))
                        &&& after.streams[s as int].subscribers[index as int]->0.id
                            == receiver.id()
                        &&& after.streams[s as int].subscribers[index as int]->0.ticket
                            == receiver.ticket()
                    },
                    Err(error) => result == Err::<DynamicReceiver<E>, TopicError>(error),
                }
            }),
            enduring(old(fabric)@.ledger, final(fabric)@.ledger),
            settled(
                old(fabric)@.ledger,
                final(fabric)@.ledger,
                self.node(),
                if result is Ok {
                    1
                } else {
                    0
                },
            ),
            final(fabric)@.streams.len() == old(fabric)@.streams.len(),
            result is Err ==> fewer(old(fabric)@.ledger, final(fabric)@.ledger),
            result matches Ok(receiver) ==> fewer_but(
                old(fabric)@.ledger,
                final(fabric)@.ledger,
                receiver.ticket(),
            ),
    {
        match fabric.open_receiver(self, declaration::<E, P>(), role) {
            Ok((stream, index, id, lease, grant)) => Ok(
                DynamicReceiver { stream, index, id, lease, grant, marker: PhantomData },
            ),
            Err(error) => Err(error),
        }
    }
}

/// A scoped publisher. Copies share its grant's allowance.
pub struct DynamicSender<E: EventSpec> {
    stream: usize,
    grant: Grant,
    marker: PhantomData<E>,
}

impl<E: EventSpec> DynamicSender<E> {
    /// Slot of the stream.
    pub closed spec fn stream(self) -> nat {
        self.stream as nat
    }

    /// Slot of the grant.
    pub closed spec fn node(self) -> nat {
        self.grant.node()
    }

    /// The sender belongs to this fabric.
    pub open spec fn valid<P: Carries<E::Payload>>(&self, fabric: &DynamicFabric<P>) -> bool {
        &&& self.stream() < fabric@.streams.len()
        &&& self.node() < fabric@.ledger.nodes.len()
        &&& fabric@.ledger.nodes[self.node() as int].handles > 0
        &&& self.node() != fabric.root()
        &&& fabric@.streams[self.stream() as int].declaration.payload == P::PAYLOAD
    }

    /// Another sender with the same grant.
    pub fn duplicate<P: Carries<E::Payload>>(&self, fabric: &mut DynamicFabric<P>) -> (copy: Self)
        requires
            old(fabric).wf(),
            self.valid(old(fabric)),
            old(fabric)@.ledger.nodes[self.node() as int].handles < usize::MAX,
        ensures
            final(fabric).wf(),
            final(fabric).root() == old(fabric).root(),
            final(fabric)@ == old(fabric)@.with_handles(self.node(), 1),
            copy.stream() == self.stream(),
            copy.node() == self.node(),
            copy.valid(final(fabric)),
    {
        let grant = fabric.copy_grant(&self.grant);
        DynamicSender { stream: self.stream, grant, marker: PhantomData }
    }

    /// Gives up this sender.
    pub fn release<P: Carries<E::Payload>>(self, fabric: &mut DynamicFabric<P>)
        requires
            old(fabric).wf(),
            self.valid(old(fabric)),
        ensures
            final(fabric).wf(),
            final(fabric).root() == old(fabric).root(),
            final(fabric)@ == old(fabric)@.drop_handle(self.node()),
            enduring(old(fabric)@.ledger, final(fabric)@.ledger),
            settled(old(fabric)@.ledger, final(fabric)@.ledger, self.node(), -1),
            final(fabric)@.streams.len() == old(fabric)@.streams.len(),
            fewer(old(fabric)@.ledger, final(fabric)@.ledger),
            same_members(old(fabric)@, final(fabric)@),
    {
        fabric.give_up(self.grant)
    }

    /// Prepares a publication and charges this publisher's event allowance.
    /// Preparation may reclaim eligible storage and dispatch wakeups.
    ///
    /// # Errors
    ///
    /// Returns the original payload if capacity, authority, or lifecycle prevents
    /// preparation.
    pub fn prepare<'a, P: Carries<E::Payload>>(
        &'a self,
        fabric: &mut DynamicFabric<P>,
        payload: E::Payload,
    ) -> (result: Result<PreparedPublication<'a, E>, TrySendError<E::Payload>>)
        requires
            old(fabric).wf(),
            self.valid(old(fabric)),
        ensures
            final(fabric).wf(),
            final(fabric).root() == old(fabric).root(),
            ({
                let (refused, after) = old(fabric)@.reserve(self.stream(), self.node());
                &&& final(fabric)@ == after
                &&& match refused {
                    Some(refusal) => result == Err::<
                        PreparedPublication<'a, E>,
                        TrySendError<E::Payload>,
                    >(refusal.of(payload)),
                    None => {
                        &&& result matches Ok(prepared)
                        &&& prepared.payload() == payload
                        &&& prepared.sender() == *self
                        &&& prepared.ticket() == after.ledger.table.len() - 1
                        &&& prepared.valid(final(fabric))
                    },
                }
            }),
    {
        match fabric.reserve(self.stream, &self.grant) {
            Ok(lease) => Ok(PreparedPublication { sender: self, payload, lease }),
            Err(refused) => Err(refused.reject(payload)),
        }
    }

    /// Attempts admission, including reclamation and wakeups.
    /// Every rejection returns the original, unaccepted payload.
    ///
    /// # Errors
    ///
    /// Returns [`TrySendError::Full`] when required retention or the publisher's quota
    /// prevents admission. Closure, revocation, and sequence exhaustion are terminal.
    pub fn send_now<P: Carries<E::Payload>>(
        &self,
        fabric: &mut DynamicFabric<P>,
        payload: E::Payload,
    ) -> (result: Result<(), TrySendError<E::Payload>>)
        requires
            old(fabric).wf(),
            self.valid(old(fabric)),
        ensures
            final(fabric).wf(),
            final(fabric).root() == old(fabric).root(),
            self.valid(final(fabric)),
            P::carried(payload).payload() == payload,
            ({
                let (refused, after) = old(fabric)@.send_now(
                    self.stream(),
                    self.node(),
                    P::carried(payload),
                );
                &&& final(fabric)@ == after
                &&& match refused {
                    Some(refusal) => result == Err::<(), TrySendError<E::Payload>>(
                        refusal.of(payload),
                    ),
                    None => result is Ok,
                }
            }),
    {
        match self.attempt(fabric, payload) {
            Ok(_) => Ok(()),
            Err((refused, payload)) => Err(refused.reject(payload)),
        }
    }

    /// Publishes at once, or hands the payload back with the refusal.
    fn attempt<P: Carries<E::Payload>>(
        &self,
        fabric: &mut DynamicFabric<P>,
        payload: E::Payload,
    ) -> (result: Result<(), (Refusal, E::Payload)>)
        requires
            old(fabric).wf(),
            self.valid(old(fabric)),
        ensures
            final(fabric).wf(),
            final(fabric).root() == old(fabric).root(),
            self.valid(final(fabric)),
            P::carried(payload).payload() == payload,
            ({
                let (refused, after) = old(fabric)@.send_now(
                    self.stream(),
                    self.node(),
                    P::carried(payload),
                );
                &&& final(fabric)@ == after
                &&& match refused {
                    Some(refusal) => result == Err::<(), (Refusal, E::Payload)>((refusal, payload)),
                    None => result is Ok,
                }
            }),
            steady(old(fabric)@.ledger, final(fabric)@.ledger),
            final(fabric)@.streams.len() == old(fabric)@.streams.len(),
            enduring(old(fabric)@.ledger, final(fabric)@.ledger),
            same_members(old(fabric)@, final(fabric)@),
            final(fabric)@.ledger.table.len() >= old(fabric)@.ledger.table.len(),
    {
        match fabric.publish_now(self.stream, &self.grant, P::carry(payload)) {
            Ok(_) => Ok(()),
            Err((refused, value)) => Err((refused, value.unload())),
        }
    }

    /// Makes the first attempt of a publication that may wait. After
    /// [`SendStep::Wait`] it goes on with [`Self::resend`] whenever the stream changes,
    /// or ends with [`PendingSend::cancel`].
    pub fn send<P: Carries<E::Payload>>(
        &self,
        fabric: &mut DynamicFabric<P>,
        payload: E::Payload,
    ) -> (step: SendStep<E::Payload>)
        requires
            old(fabric).wf(),
            self.valid(old(fabric)),
        ensures
            final(fabric).wf(),
            final(fabric).root() == old(fabric).root(),
            self.valid(final(fabric)),
            P::carried(payload).payload() == payload,
            ({
                let (verdict, after) = old(fabric)@.send_first(
                    self.stream(),
                    self.node(),
                    P::carried(payload),
                );
                final(fabric)@ == after && step.is(verdict, payload, self.stream(), final(fabric))
            }),
            enduring(old(fabric)@.ledger, final(fabric)@.ledger),
            steady(old(fabric)@.ledger, final(fabric)@.ledger),
            final(fabric)@.streams.len() == old(fabric)@.streams.len(),
            same_members(old(fabric)@, final(fabric)@),
            step matches SendStep::Wait(pending) ==> pending.ticket() >= old(fabric)@.ledger.table.len(),
    {
        match self.attempt(fabric, payload) {
            Ok(_) => SendStep::Sent,
            Err((refused, payload)) => match refused {
                Refusal::Full | Refusal::Contended | Refusal::MaintenanceRequired => {
                    self.start_waiting(fabric, payload)
                },
                Refusal::Revoked => SendStep::Rejected(SendError::Revoked(payload)),
                Refusal::SequenceExhausted => SendStep::Rejected(
                    SendError::SequenceExhausted(payload),
                ),
                Refusal::Closed => SendStep::Rejected(SendError::Closed(payload)),
            },
        }
    }

    /// Registers a waiter and tries once more.
    fn start_waiting<P: Carries<E::Payload>>(
        &self,
        fabric: &mut DynamicFabric<P>,
        payload: E::Payload,
    ) -> (step: SendStep<E::Payload>)
        requires
            old(fabric).wf(),
            self.valid(old(fabric)),
        ensures
            final(fabric).wf(),
            final(fabric).root() == old(fabric).root(),
            self.valid(final(fabric)),
            ({
                let value = P::carried(payload);
                let (error, waiting) = old(fabric)@.wait(self.stream(), self.node());
                let (verdict, after) = match error {
                    Some(TopicError::Revoked) => (
                        SendVerdict::Rejected(SendError::Revoked(value)),
                        waiting,
                    ),
                    Some(_) => (SendVerdict::Rejected(SendError::WaitersFull(value)), waiting),
                    None => waiting.send_again(
                        self.stream(),
                        self.node(),
                        value,
                        old(fabric)@.ledger.table.len(),
                    ),
                };
                final(fabric)@ == after && step.is(verdict, payload, self.stream(), final(fabric))
            }),
            enduring(old(fabric)@.ledger, final(fabric)@.ledger),
            steady(old(fabric)@.ledger, final(fabric)@.ledger),
            final(fabric)@.streams.len() == old(fabric)@.streams.len(),
            same_members(old(fabric)@, final(fabric)@),
            step matches SendStep::Wait(pending) ==> pending.ticket() >= old(fabric)@.ledger.table.len(),
    {
        match fabric.begin_wait(self.stream, &self.grant) {
            Ok(lease) => {
                let pending = PendingSend {
                    payload,
                    waiter: Waiter { stream: self.stream, lease },
                };
                self.resend(fabric, pending)
            },
            Err(TopicError::Revoked) => SendStep::Rejected(SendError::Revoked(payload)),
            Err(_) => SendStep::Rejected(SendError::WaitersFull(payload)),
        }
    }

    /// Makes a further attempt of a publication that waits.
    pub fn resend<P: Carries<E::Payload>>(
        &self,
        fabric: &mut DynamicFabric<P>,
        pending: PendingSend<E::Payload>,
    ) -> (step: SendStep<E::Payload>)
        requires
            old(fabric).wf(),
            self.valid(old(fabric)),
            pending.valid(old(fabric)),
            pending.stream() == self.stream(),
        ensures
            final(fabric).wf(),
            final(fabric).root() == old(fabric).root(),
            self.valid(final(fabric)),
            P::carried(pending.payload()).payload() == pending.payload(),
            ({
                let (verdict, after) = old(fabric)@.send_again(
                    self.stream(),
                    self.node(),
                    P::carried(pending.payload()),
                    pending.ticket(),
                );
                final(fabric)@ == after && step.is(
                    verdict,
                    pending.payload(),
                    self.stream(),
                    final(fabric),
                )
            }),
            enduring_but(old(fabric)@.ledger, final(fabric)@.ledger, pending.ticket()),
            steady(old(fabric)@.ledger, final(fabric)@.ledger),
            final(fabric)@.streams.len() == old(fabric)@.streams.len(),
            !(step is Wait) ==> !final(fabric)@.ledger.outstanding(pending.ticket()),
            same_members(old(fabric)@, final(fabric)@),
            step matches SendStep::Wait(again) ==> again.ticket() == pending.ticket(),
    {
        let PendingSend { payload, waiter } = pending;
        let ghost before = fabric@;
        let ghost ticket = waiter.lease.ticket();
        assert(before.ledger.outstanding(ticket));
        proof {
            crate::fabric_laws::lemma_send_now_keeps(
                before,
                self.stream(),
                self.node(),
                P::carried(payload),
                ticket,
            );
        }
        match self.attempt(fabric, payload) {
            Ok(_) => {
                fabric.end_wait(waiter.stream, waiter.lease);
                SendStep::Sent
            },
            Err((refused, payload)) => match refused {
                Refusal::Full | Refusal::Contended | Refusal::MaintenanceRequired => {
                    SendStep::Wait(PendingSend { payload, waiter })
                },
                Refusal::Revoked => {
                    fabric.end_wait(waiter.stream, waiter.lease);
                    SendStep::Rejected(SendError::Revoked(payload))
                },
                Refusal::SequenceExhausted => {
                    fabric.end_wait(waiter.stream, waiter.lease);
                    SendStep::Rejected(SendError::SequenceExhausted(payload))
                },
                Refusal::Closed => {
                    fabric.end_wait(waiter.stream, waiter.lease);
                    SendStep::Rejected(SendError::Closed(payload))
                },
            },
        }
    }
}

/// The charge of one pending operation.
pub struct Waiter {
    stream: usize,
    lease: Lease,
}

/// A publication that waits for room.
pub struct PendingSend<T> {
    payload: T,
    waiter: Waiter,
}

impl<T> PendingSend<T> {
    /// The payload.
    pub closed spec fn payload(self) -> T {
        self.payload
    }

    /// Slot of the stream.
    pub closed spec fn stream(self) -> nat {
        self.waiter.stream as nat
    }

    /// The charge of the waiter.
    pub closed spec fn ticket(self) -> nat {
        self.waiter.lease.ticket()
    }

    /// The waiter is registered in this fabric.
    pub closed spec fn valid<P>(self, fabric: &DynamicFabric<P>) -> bool {
        &&& self.waiter.stream < fabric@.streams.len()
        &&& self.waiter.lease.recorded(
            fabric@.ledger.table,
            Owner::Waiter(self.waiter.stream as nat),
        )
    }

    /// The charge of a registered waiter is outstanding.
    pub broadcast proof fn lemma_waiter<P>(self, fabric: &DynamicFabric<P>)
        requires
            #[trigger] self.valid(fabric),
        ensures
            self.stream() < fabric@.streams.len(),
            fabric@.ledger.outstanding(self.ticket()),
            fabric@.ledger.record(self.ticket()).owner == Owner::Waiter(self.stream()),
    {
    }

    /// A waiter stays registered while its charge stays.
    pub proof fn lemma_still_valid<P>(self, before: DynamicFabric<P>, after: DynamicFabric<P>)
        requires
            self.valid(&before),
            after@.streams.len() == before@.streams.len(),
            stays(before@.ledger, after@.ledger, self.ticket()),
        ensures
            self.valid(&after),
    {
    }

    /// Cancels the publication and returns the payload.
    pub fn cancel<P: Payloads>(self, fabric: &mut DynamicFabric<P>) -> (payload: T)
        requires
            old(fabric).wf(),
            self.valid(old(fabric)),
        ensures
            final(fabric).wf(),
            final(fabric).root() == old(fabric).root(),
            final(fabric)@ == old(fabric)@.end_wait(self.stream(), self.ticket()),
            payload == self.payload(),
            enduring_but(old(fabric)@.ledger, final(fabric)@.ledger, self.ticket()),
            steady(old(fabric)@.ledger, final(fabric)@.ledger),
            final(fabric)@.streams.len() == old(fabric)@.streams.len(),
            fewer(old(fabric)@.ledger, final(fabric)@.ledger),
            !final(fabric)@.ledger.outstanding(self.ticket()),
            same_members(old(fabric)@, final(fabric)@),
    {
        let PendingSend { payload, waiter } = self;
        fabric.end_wait(waiter.stream, waiter.lease);
        payload
    }
}

/// What an attempt of a publication that may wait came to.
pub enum SendStep<T> {
    /// The payload is admitted.
    Sent,
    /// The payload is rejected for good.
    Rejected(SendError<T>),
    /// The publication waits for a change of the stream.
    Wait(PendingSend<T>),
}

impl<T> SendStep<T> {
    /// The step is what the model says.
    pub open spec fn is<P>(
        self,
        verdict: SendVerdict<P>,
        payload: T,
        stream: nat,
        fabric: &DynamicFabric<P>,
    ) -> bool {
        match verdict {
            SendVerdict::Sent => self is Sent,
            SendVerdict::Rejected(error) => self == SendStep::Rejected(
                error.with_payload(payload),
            ),
            SendVerdict::Waiting(ticket) => {
                &&& self matches SendStep::Wait(pending)
                &&& pending.payload() == payload
                &&& pending.stream() == stream
                &&& pending.ticket() == ticket
                &&& pending.valid(fabric)
            },
        }
    }
}

/// A publication charged to one scoped sender. Holding it retains only that sender's
/// credit.
#[must_use]
#[verifier::reject_recursive_types(E)]
pub struct PreparedPublication<'a, E: EventSpec> {
    sender: &'a DynamicSender<E>,
    payload: E::Payload,
    lease: Lease,
}

impl<'a, E: EventSpec> PreparedPublication<'a, E> {
    /// The payload.
    pub closed spec fn payload(self) -> E::Payload {
        self.payload
    }

    /// The sender that prepared it.
    pub closed spec fn sender(self) -> DynamicSender<E> {
        *self.sender
    }

    /// The charge for its retention.
    pub closed spec fn ticket(self) -> nat {
        self.lease.ticket()
    }

    /// The preparation belongs to this fabric.
    pub closed spec fn valid<P: Carries<E::Payload>>(self, fabric: &DynamicFabric<P>) -> bool {
        &&& self.sender.valid(fabric)
        &&& self.lease.recorded(fabric@.ledger.table, Owner::Caller)
    }

    /// Admits without reclamation or wakeups. Call [`DynamicFabric::maintain`] from the
    /// owner's application loop for progress.
    ///
    /// # Errors
    ///
    /// Rejection returns this preparation unchanged. `MaintenanceRequired` means an
    /// eligible retained entry must be reclaimed before retrying.
    pub fn try_send<P: Carries<E::Payload>>(self, fabric: &mut DynamicFabric<P>) -> (result: Result<
        (),
        TrySendError<Self>,
    >)
        requires
            old(fabric).wf(),
            self.valid(old(fabric)),
        ensures
            final(fabric).wf(),
            final(fabric).root() == old(fabric).root(),
            P::carried(self.payload()).payload() == self.payload(),
            ({
                let (refused, after) = old(fabric)@.commit(
                    self.sender().stream(),
                    self.sender().node(),
                    P::carried(self.payload()),
                    self.ticket(),
                    true,
                );
                &&& final(fabric)@ == after
                &&& match refused {
                    Some(refusal) => {
                        &&& result == Err::<(), TrySendError<Self>>(refusal.of(self))
                        &&& self.valid(final(fabric))
                    },
                    None => result is Ok,
                }
            }),
    {
        let PreparedPublication { sender, payload, lease } = self;
        match fabric.commit(sender.stream, &sender.grant, P::carry(payload), lease, true) {
            Ok(_) => Ok(()),
            Err((refused, value, lease)) => Err(
                refused.reject(PreparedPublication { sender, payload: value.unload(), lease }),
            ),
        }
    }

    /// Cancels preparation and returns the unaccepted payload.
    pub fn into_inner<P: Carries<E::Payload>>(self, fabric: &mut DynamicFabric<P>) -> (payload:
        E::Payload)
        requires
            old(fabric).wf(),
            self.valid(old(fabric)),
        ensures
            final(fabric).wf(),
            final(fabric).root() == old(fabric).root(),
            payload == self.payload(),
            final(fabric)@ == old(fabric)@.release(self.ticket()),
    {
        let PreparedPublication { sender: _, payload, lease } = self;
        fabric.put_back(lease, Ghost(Owner::Caller));
        payload
    }
}

/// A subscription.
pub struct DynamicReceiver<E: EventSpec> {
    stream: usize,
    index: usize,
    id: u64,
    lease: Lease,
    grant: Grant,
    marker: PhantomData<E>,
}

impl<E: EventSpec> DynamicReceiver<E> {
    /// Slot of the stream.
    pub closed spec fn stream(self) -> nat {
        self.stream as nat
    }

    /// Subscriber slot in the stream.
    pub closed spec fn index(self) -> nat {
        self.index as nat
    }

    /// Identity of the cursor.
    pub closed spec fn id(self) -> u64 {
        self.id
    }

    /// Slot of the grant.
    pub closed spec fn node(self) -> nat {
        self.grant.node()
    }

    /// The charge for the subscription.
    pub closed spec fn ticket(self) -> nat {
        self.lease.ticket()
    }

    /// The subscription belongs to this fabric.
    pub closed spec fn valid<P: Carries<E::Payload>>(&self, fabric: &DynamicFabric<P>) -> bool {
        &&& self.stream < fabric@.streams.len()
        &&& fabric.knows(&self.grant)
        &&& self.grant.node() != fabric.root()
        &&& self.lease.recorded(
            fabric@.ledger.table,
            Owner::Receiver(self.stream as nat, self.id as nat),
        )
        &&& self.lease.node() == self.grant.node()
        &&& self.lease.usage() == one_subscription().widened()
        &&& fabric@.streams[self.stream as int].declaration.payload == P::PAYLOAD
        &&& !fabric@.streams[self.stream as int].closed ==> {
            &&& self.index < fabric@.streams[self.stream as int].subscribers.len()
            &&& fabric@.streams[self.stream as int].subscribers[self.index as int] is Some
            &&& fabric@.streams[self.stream as int].subscribers[self.index as int]->0.id
                == self.id
        }
    }

    /// The charge of a subscription is outstanding, for one subscription.
    pub broadcast proof fn lemma_receiver<P: Carries<E::Payload>>(&self, fabric: &DynamicFabric<P>)
        requires
            #[trigger] self.valid(fabric),
        ensures
            self.stream() < fabric@.streams.len(),
            self.node() < fabric@.ledger.nodes.len(),
            fabric@.ledger.outstanding(self.ticket()),
            fabric@.ledger.record(self.ticket()).owner == Owner::Receiver(
                self.stream(),
                self.id() as nat,
            ),
            fabric@.ledger.record(self.ticket()).node == self.node(),
            fabric@.ledger.record(self.ticket()).usage == one_subscription().widened(),
    {
    }

    /// A subscription stays valid while its stream, its charge and its grant stay.
    pub proof fn lemma_still_valid<P: Carries<E::Payload>>(
        &self,
        before: DynamicFabric<P>,
        after: DynamicFabric<P>,
    )
        requires
            self.valid(&before),
            same_members(before@, after@),
            after.root() == before.root(),
            self.node() < after@.ledger.nodes.len(),
            after@.ledger.nodes[self.node() as int].handles > 0,
            stays(before@.ledger, after@.ledger, self.ticket()),
        ensures
            self.valid(&after),
    {
    }

    /// Receives a shared payload or gap, and reclaims storage and dispatches wakeups.
    ///
    /// # Errors
    ///
    /// Returns [`ReceiveError::Contended`] when no operation can be counted, or
    /// [`ReceiveError::Closed`] when the stream closes or the grant is revoked.
    pub fn recv_now<P: Carries<E::Payload>>(
        &self,
        fabric: &mut DynamicFabric<P>,
    ) -> (result: Result<
        Option<StreamItem<Shared<E::Payload, P>>>,
        ReceiveError,
    >)
        requires
            old(fabric).wf(),
            self.valid(old(fabric)),
        ensures
            final(fabric).wf(),
            final(fabric).root() == old(fabric).root(),
            self.valid(final(fabric)),
            ({
                let (item, after) = old(fabric)@.recv_now(
                    self.stream(),
                    self.index(),
                    self.id(),
                    self.node(),
                );
                retained(result) == item && final(fabric)@ == after
            }),
            enduring(old(fabric)@.ledger, final(fabric)@.ledger),
            steady(old(fabric)@.ledger, final(fabric)@.ledger),
            same_declared(old(fabric)@, final(fabric)@),
            final(fabric)@.ledger.table.len() >= old(fabric)@.ledger.table.len(),
    {
        let ghost before = fabric@;
        proof {
            assert(before.ledger.outstanding(self.lease.ticket()));
            crate::fabric_laws::lemma_recv_now_keeps(
                before,
                self.stream(),
                self.index(),
                self.id(),
                self.node(),
                self.lease.ticket(),
            );
        }
        handed(fabric.receive_now(self.stream, &self.grant, self.index, self.id))
    }

    /// Receives without reclamation or wakeups. The scope owner must call
    /// [`DynamicFabric::maintain`] for deferred progress.
    ///
    /// # Errors
    ///
    /// Returns termination without advancing the cursor.
    pub fn try_recv<P: Carries<E::Payload>>(
        &self,
        fabric: &mut DynamicFabric<P>,
    ) -> (result: Result<
        Option<StreamItem<Shared<E::Payload, P>>>,
        ReceiveError,
    >)
        requires
            old(fabric).wf(),
            self.valid(old(fabric)),
        ensures
            final(fabric).wf(),
            final(fabric).root() == old(fabric).root(),
            self.valid(final(fabric)),
            ({
                let (item, after) = old(fabric)@.try_recv(
                    self.stream(),
                    self.index(),
                    self.id(),
                    self.node(),
                );
                retained(result) == item && final(fabric)@ == after
            }),
    {
        handed(fabric.strict_receive(self.stream, &self.grant, self.index, self.id))
    }

    /// Ends the subscription.
    pub fn detach<P: Carries<E::Payload>>(self, fabric: &mut DynamicFabric<P>)
        requires
            old(fabric).wf(),
            self.valid(old(fabric)),
        ensures
            final(fabric).wf(),
            final(fabric).root() == old(fabric).root(),
            final(fabric)@ == old(fabric)@.detach(
                self.stream(),
                self.index(),
                self.node(),
                self.ticket(),
            ),
            enduring_but(old(fabric)@.ledger, final(fabric)@.ledger, self.ticket()),
            settled(old(fabric)@.ledger, final(fabric)@.ledger, self.node(), -1),
            same_declared(old(fabric)@, final(fabric)@),
            fewer(old(fabric)@.ledger, final(fabric)@.ledger),
            !final(fabric)@.ledger.outstanding(self.ticket()),
    {
        fabric.end_receiver(self.stream, self.index, self.id, self.lease, self.grant)
    }

    /// Makes the first attempt of a receive that may wait. After
    /// [`ReceiveStep::Wait`] it goes on with [`Self::recv_again`] whenever the stream
    /// changes, or ends with [`PendingReceive::cancel`].
    pub fn recv<P: Carries<E::Payload>>(
        &self,
        fabric: &mut DynamicFabric<P>,
    ) -> (step: ReceiveStep<E::Payload, P>)
        requires
            old(fabric).wf(),
            self.valid(old(fabric)),
        ensures
            final(fabric).wf(),
            final(fabric).root() == old(fabric).root(),
            ({
                let (verdict, after) = old(fabric)@.recv_first(
                    self.stream(),
                    self.index(),
                    self.id(),
                    self.node(),
                );
                final(fabric)@ == after && step.is(verdict, self.stream(), final(fabric))
            }),
            self.valid(final(fabric)),
            enduring(old(fabric)@.ledger, final(fabric)@.ledger),
            steady(old(fabric)@.ledger, final(fabric)@.ledger),
            same_declared(old(fabric)@, final(fabric)@),
            step matches ReceiveStep::Wait(pending) ==> pending.ticket() >= old(fabric)@.ledger.table.len(),
    {
        match self.recv_now(fabric) {
            Ok(Some(item)) => ReceiveStep::Received(item),
            Ok(None) => self.start_waiting(fabric),
            Err(ReceiveError::Contended) => self.start_waiting(fabric),
            Err(error) => ReceiveStep::Failed(error),
        }
    }

    /// Registers a waiter and tries once more.
    fn start_waiting<P: Carries<E::Payload>>(
        &self,
        fabric: &mut DynamicFabric<P>,
    ) -> (step: ReceiveStep<E::Payload, P>)
        requires
            old(fabric).wf(),
            self.valid(old(fabric)),
        ensures
            final(fabric).wf(),
            final(fabric).root() == old(fabric).root(),
            ({
                let (error, waiting) = old(fabric)@.wait(self.stream(), self.node());
                let (verdict, after) = match error {
                    Some(TopicError::Revoked) => (
                        ReceiveVerdict::Failed(ReceiveError::Closed(CloseReason::Revoked)),
                        waiting,
                    ),
                    Some(_) => (ReceiveVerdict::Failed(ReceiveError::WaitersFull), waiting),
                    None => waiting.recv_again(
                        self.stream(),
                        self.index(),
                        self.id(),
                        self.node(),
                        old(fabric)@.ledger.table.len(),
                    ),
                };
                final(fabric)@ == after && step.is(verdict, self.stream(), final(fabric))
            }),
            self.valid(final(fabric)),
            enduring(old(fabric)@.ledger, final(fabric)@.ledger),
            steady(old(fabric)@.ledger, final(fabric)@.ledger),
            same_declared(old(fabric)@, final(fabric)@),
            step matches ReceiveStep::Wait(pending) ==> pending.ticket() >= old(fabric)@.ledger.table.len(),
    {
        match fabric.begin_wait(self.stream, &self.grant) {
            Ok(lease) => {
                let pending = PendingReceive {
                    waiter: Waiter { stream: self.stream, lease },
                };
                self.recv_again(fabric, pending)
            },
            Err(TopicError::Revoked) => ReceiveStep::Failed(
                ReceiveError::Closed(CloseReason::Revoked),
            ),
            Err(_) => ReceiveStep::Failed(ReceiveError::WaitersFull),
        }
    }

    /// Makes a further attempt of a receive that waits.
    pub fn recv_again<P: Carries<E::Payload>>(
        &self,
        fabric: &mut DynamicFabric<P>,
        pending: PendingReceive,
    ) -> (step:
        ReceiveStep<E::Payload, P>)
        requires
            old(fabric).wf(),
            self.valid(old(fabric)),
            pending.valid(old(fabric)),
            pending.stream() == self.stream(),
        ensures
            final(fabric).wf(),
            final(fabric).root() == old(fabric).root(),
            ({
                let (verdict, after) = old(fabric)@.recv_again(
                    self.stream(),
                    self.index(),
                    self.id(),
                    self.node(),
                    pending.ticket(),
                );
                final(fabric)@ == after && step.is(verdict, self.stream(), final(fabric))
            }),
            self.valid(final(fabric)),
            enduring_but(old(fabric)@.ledger, final(fabric)@.ledger, pending.ticket()),
            steady(old(fabric)@.ledger, final(fabric)@.ledger),
            same_declared(old(fabric)@, final(fabric)@),
            !(step is Wait) ==> !final(fabric)@.ledger.outstanding(pending.ticket()),
            step matches ReceiveStep::Wait(again) ==> again.ticket() == pending.ticket(),
    {
        let ghost before = fabric@;
        let PendingReceive { waiter } = pending;
        proof {
            assert(before.ledger.outstanding(waiter.lease.ticket()));
            crate::fabric_laws::lemma_recv_now_keeps(
                before,
                self.stream(),
                self.index(),
                self.id(),
                self.node(),
                waiter.lease.ticket(),
            );
        }
        assert(lasting(before.ledger, self.lease.ticket()));
        match self.recv_now(fabric) {
            Ok(Some(item)) => {
                fabric.end_wait(waiter.stream, waiter.lease);
                ReceiveStep::Received(item)
            },
            Ok(None) => ReceiveStep::Wait(PendingReceive { waiter }),
            Err(ReceiveError::Contended) => ReceiveStep::Wait(PendingReceive { waiter }),
            Err(error) => {
                fabric.end_wait(waiter.stream, waiter.lease);
                ReceiveStep::Failed(error)
            },
        }
    }
}

/// What a receive gives, with what the stream retains in place of a handle to it.
pub open spec fn retained<T, P: Carries<T>>(
    result: Result<Option<StreamItem<Shared<T, P>>>, ReceiveError>,
) -> Result<Option<StreamItem<P>>, ReceiveError> {
    match result {
        Ok(Some(item)) => Ok(Some(retained_item(item))),
        Ok(None) => Ok(None),
        Err(error) => Err(error),
    }
}

pub open spec fn retained_item<T, P: Carries<T>>(item: StreamItem<Shared<T, P>>) -> StreamItem<P> {
    match item {
        StreamItem::Data { sequence, value } => StreamItem::Data {
            sequence,
            value: value.retained(),
        },
        StreamItem::Gap { from, to } => StreamItem::Gap { from, to },
    }
}

/// Hands out what a stream retains.
fn handed<T, P: Carries<T>>(result: Result<Option<StreamItem<Arc<P>>>, ReceiveError>) -> (handed:
    Result<Option<StreamItem<Shared<T, P>>>, ReceiveError>)
    requires
        result matches Ok(Some(StreamItem::Data { sequence, value })) ==> value.kind()
            == P::PAYLOAD,
    ensures
        retained(handed) == unshared(result),
{
    match result {
        Ok(Some(StreamItem::Data { sequence, value })) => Ok(
            Some(StreamItem::Data { sequence, value: Shared::new(value) }),
        ),
        Ok(Some(StreamItem::Gap { from, to })) => Ok(Some(StreamItem::Gap { from, to })),
        Ok(None) => Ok(None),
        Err(error) => Err(error),
    }
}

/// A receive that waits for a publication.
pub struct PendingReceive {
    waiter: Waiter,
}

impl PendingReceive {
    /// Slot of the stream.
    pub closed spec fn stream(self) -> nat {
        self.waiter.stream as nat
    }

    /// The charge of the waiter.
    pub closed spec fn ticket(self) -> nat {
        self.waiter.lease.ticket()
    }

    /// The waiter is registered in this fabric.
    pub closed spec fn valid<P>(self, fabric: &DynamicFabric<P>) -> bool {
        &&& self.waiter.stream < fabric@.streams.len()
        &&& self.waiter.lease.recorded(
            fabric@.ledger.table,
            Owner::Waiter(self.waiter.stream as nat),
        )
    }

    /// The charge of a registered waiter is outstanding.
    pub broadcast proof fn lemma_waiter<P>(self, fabric: &DynamicFabric<P>)
        requires
            #[trigger] self.valid(fabric),
        ensures
            self.stream() < fabric@.streams.len(),
            fabric@.ledger.outstanding(self.ticket()),
            fabric@.ledger.record(self.ticket()).owner == Owner::Waiter(self.stream()),
    {
    }

    /// A waiter stays registered while its charge stays.
    pub proof fn lemma_still_valid<P>(self, before: DynamicFabric<P>, after: DynamicFabric<P>)
        requires
            self.valid(&before),
            after@.streams.len() == before@.streams.len(),
            stays(before@.ledger, after@.ledger, self.ticket()),
        ensures
            self.valid(&after),
    {
    }

    /// Cancels a receive of a subscription.
    pub fn cancel<E: EventSpec, P: Carries<E::Payload>>(
        self,
        receiver: &DynamicReceiver<E>,
        fabric: &mut DynamicFabric<P>,
    )
        requires
            old(fabric).wf(),
            self.valid(old(fabric)),
            receiver.valid(old(fabric)),
        ensures
            final(fabric).wf(),
            final(fabric).root() == old(fabric).root(),
            final(fabric)@ == old(fabric)@.end_wait(self.stream(), self.ticket()),
            receiver.valid(final(fabric)),
            enduring_but(old(fabric)@.ledger, final(fabric)@.ledger, self.ticket()),
            steady(old(fabric)@.ledger, final(fabric)@.ledger),
            same_declared(old(fabric)@, final(fabric)@),
            fewer(old(fabric)@.ledger, final(fabric)@.ledger),
            !final(fabric)@.ledger.outstanding(self.ticket()),
    {
        assert(lasting(fabric@.ledger, receiver.lease.ticket()));
        fabric.end_wait(self.waiter.stream, self.waiter.lease)
    }
}

/// What an attempt of a receive that may wait came to.
#[verifier::reject_recursive_types(T)]
pub enum ReceiveStep<T, P: Carries<T>> {
    /// The next data or gap.
    Received(StreamItem<Shared<T, P>>),
    /// The receive ended without an item.
    Failed(ReceiveError),
    /// The receive waits for a change of the stream.
    Wait(PendingReceive),
}

impl<T, P: Carries<T>> ReceiveStep<T, P> {
    /// The step is what the model says.
    pub open spec fn is(
        self,
        verdict: ReceiveVerdict<P>,
        stream: nat,
        fabric: &DynamicFabric<P>,
    ) -> bool {
        match verdict {
            ReceiveVerdict::Received(item) => self matches ReceiveStep::Received(found)
                && retained_item(found) == item,
            ReceiveVerdict::Failed(error) => self matches ReceiveStep::Failed(found) && found
                == error,
            ReceiveVerdict::Waiting(ticket) => {
                &&& self matches ReceiveStep::Wait(pending)
                &&& pending.stream() == stream
                &&& pending.ticket() == ticket
                &&& pending.valid(fabric)
            },
        }
    }
}

} // verus!
