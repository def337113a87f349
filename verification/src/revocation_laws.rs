//! Revocation over whole histories of a ledger.
use crate::derive_laws::{lemma_free_slot, lemma_restrict_wf, splits};
use crate::error::TopicError;
use crate::event::EventId;
use crate::grant::{Limits, Permission, Rights};
use crate::grant_laws::lemma_charge_each_keeps;
use crate::ledger::{lemma_signals_wf, Revocation};
use crate::ledger_laws::{
    kept_node, lemma_assign_wf, lemma_charge_wf, lemma_cut_off_wf, lemma_cutoff_complete_wf,
    lemma_node_change, lemma_outstanding, lemma_reap_wf, lemma_release_kept, lemma_release_sound,
    lemma_subtree_revoked, lemma_unreserved,
};
use crate::ledger_model::{LedgerView, NodeView, Owner, Signal};
use vstd::prelude::*;

verus! {

/// One thing that happens to a ledger.
pub enum GrantCall {
    /// A charge to a pool, or its refusal.
    Charge(nat, Option<nat>, Limits, Owner),
    /// A charge returns.
    Release(nat),
    /// A charge goes to another owner.
    Assign(nat, Owner),
    /// An operation is admitted, or not.
    Enter(nat, EventId, Rights),
    /// An admitted operation ends.
    Leave(nat, bool),
    /// A listener is registered, or not.
    Register(nat, EventId, u64),
    /// A listener is gone.
    Retire(u64),
    /// A child is derived, or refused.
    Restrict(nat, Seq<Permission>, Limits),
    /// One more handle to a grant.
    Share(nat),
    /// One handle less.
    GiveUp(nat),
    /// A revocation begins, or is turned away.
    Begin(nat),
    /// A revocation completes, if it can.
    Settle(nat),
    /// A revocation is over or abandoned.
    End(nat),
    /// Wakeups are owed or dispatched.
    Signals(Seq<Signal>),
}

/// The call can be made.
pub open spec fn allowed(v: LedgerView, call: GrantCall) -> bool {
    match call {
        GrantCall::Charge(node, event, _, _) => v.has_pool(node, event),
        GrantCall::Release(ticket) => v.outstanding(ticket) && !(v.record(ticket).owner is Child),
        GrantCall::Assign(ticket, _) => v.outstanding(ticket) && !(v.record(ticket).owner is Child),
        GrantCall::Leave(node, _) => node < v.nodes.len() && v.nodes[node as int].active > 0,
        GrantCall::Restrict(node, permissions, limits) => {
            &&& node < v.nodes.len()
            &&& v.nodes[node as int].handles > 0
            &&& v.restrict_error(node, permissions, limits) is None ==> splits(limits, permissions)
        },
        GrantCall::Settle(node) => node < v.nodes.len() && v.nodes[node as int].revoked,
        GrantCall::Enter(node, _, _)
        | GrantCall::Register(node, _, _)
        | GrantCall::Share(node)
        | GrantCall::GiveUp(node)
        | GrantCall::Begin(node)
        | GrantCall::End(node) => node < v.nodes.len() && v.nodes[node as int].handles > 0,
        GrantCall::Retire(_) | GrantCall::Signals(_) => true,
    }
}

/// A ledger after one call.
pub open spec fn called(v: LedgerView, call: GrantCall) -> LedgerView {
    match call {
        GrantCall::Charge(node, event, usage, owner) => if v.charge_error(
            node,
            event,
            usage,
        ) is None {
            v.charge(node, event, usage, owner)
        } else {
            v.refuse(node, event, usage)
        },
        GrantCall::Release(ticket) => v.release(ticket).reap(v.record(ticket).node),
        GrantCall::Assign(ticket, owner) => v.assign(ticket, owner),
        GrantCall::Enter(node, event, right) => if v.enter_error(node, event, right) is None {
            v.with_active(node, 1)
        } else {
            v
        },
        GrantCall::Leave(node, notify) => v.leave(node, notify).reap(node),
        GrantCall::Register(node, event, listener) => if v.register_error(
            node,
            event,
            listener,
        ) is None {
            v.register(node, event, listener)
        } else {
            v
        },
        GrantCall::Retire(listener) => v.retire(listener),
        GrantCall::Restrict(node, permissions, limits) => if v.restrict_error(
            node,
            permissions,
            limits,
        ) is None {
            v.restrict(node, permissions, limits)
        } else {
            v.refuse_restrict(node, permissions, limits)
        },
        GrantCall::Share(node) => v.with_handles(node, 1),
        GrantCall::GiveUp(node) => v.with_handles(node, -1).reap(node),
        GrantCall::Begin(node) => v.begin_revocation(node).1,
        GrantCall::Settle(node) => if v.quiet(node) {
            v.cutoff_complete(node)
        } else {
            v
        },
        GrantCall::End(node) => v.with_node(
            node,
            NodeView { revoking: false, ..v.nodes[node as int] },
        ),
        GrantCall::Signals(signals) => LedgerView { signals, ..v },
    }
}

/// A ledger after a history of calls.
pub open spec fn run(v: LedgerView, calls: Seq<GrantCall>) -> LedgerView
    decreases calls.len(),
{
    if calls.len() == 0 {
        v
    } else {
        called(run(v, calls.drop_last()), calls.last())
    }
}

/// Every call of the history can be made where it stands, and someone refers to the grant
/// in slot `node` all the while.
pub open spec fn can_happen(v: LedgerView, node: nat, calls: Seq<GrantCall>) -> bool
    decreases calls.len(),
{
    &&& !run(v, calls).nodes[node as int].dead()
    &&& calls.len() > 0 ==> {
        &&& can_happen(v, node, calls.drop_last())
        &&& allowed(run(v, calls.drop_last()), calls.last())
    }
}

/// What revocation has done to the grant in slot `n` stays done.
spec fn holds(before: LedgerView, after: LedgerView, n: nat, ended: bool) -> bool {
    &&& before.nodes.len() <= after.nodes.len()
    &&& before.nodes[n as int].revoked ==> after.nodes[n as int].revoked
    &&& before.nodes[n as int].complete ==> after.nodes[n as int].complete
    &&& before.nodes[n as int].revoking && !ended ==> after.nodes[n as int].revoking
}

/// A change of flags alone keeps a ledger in order.
proof fn lemma_flags(v: LedgerView, after: LedgerView, node: nat)
    requires
        v.wf(),
        node < v.nodes.len(),
        after.table == v.table,
        after.nodes.len() == v.nodes.len(),
        forall|m: int|
            0 <= m < v.nodes.len() ==> (#[trigger] after.nodes[m]) == (NodeView {
                handles: after.nodes[m].handles,
                active: after.nodes[m].active,
                revoking: after.nodes[m].revoking,
                listeners: after.nodes[m].listeners,
                ..v.nodes[m]
            }),
        forall|m: int|
            0 <= m < v.nodes.len() && m != node ==> (#[trigger] after.nodes[m]).handles
                == v.nodes[m].handles && after.nodes[m].active == v.nodes[m].active,
    ensures
        after.sound(),
        forall|m: nat| m < after.nodes.len() && m != node ==> !#[trigger] after.must_reap(m),
        after.nodes[node as int].handles + after.nodes[node as int].active
            >= v.nodes[node as int].handles + v.nodes[node as int].active ==> after.wf(),
{
    lemma_node_change(v, after);
    assert forall|m: nat| m < after.nodes.len() && m != node implies !#[trigger] after.must_reap(
        m,
    ) by {
        assert(!v.must_reap(m));
    }
    assert(!v.must_reap(node));
}

/// One call keeps a ledger in order, and takes no revocation back.
proof fn lemma_called(v: LedgerView, call: GrantCall, n: nat)
    requires
        v.wf(),
        n < v.nodes.len(),
        !v.nodes[n as int].dead(),
        allowed(v, call),
    ensures
        called(v, call).wf(),
        holds(v, called(v, call), n, call == GrantCall::End(n)),
{
    let after = called(v, call);
    match call {
        GrantCall::Charge(node, event, usage, owner) => {
            if v.charge_error(node, event, usage) is None {
                lemma_charge_wf(v, node, event, usage, owner);
            } else {
                lemma_signals_wf(v, after);
            }
        },
        GrantCall::Release(ticket) => {
            let at = v.record(ticket).node;
            lemma_unreserved(v, ticket);
            lemma_outstanding(v, ticket);
            lemma_release_sound(v, ticket);
            lemma_release_kept(v, ticket);
            let next = v.release(ticket);
            assert forall|m: nat| m < next.nodes.len() && m != at implies !#[trigger] next.must_reap(
                m,
            ) by {
                assert(!v.must_reap(m));
            }
            lemma_reap_wf(next, at);
            assert(kept_node(v, next, n));
            assert(kept_node(next, next.reap(at), n));
        },
        GrantCall::Assign(ticket, owner) => {
            lemma_assign_wf(v, ticket, owner);
        },
        GrantCall::Enter(node, event, right) => {
            if v.enter_error(node, event, right) is None {
                lemma_flags(v, after, node);
            }
        },
        GrantCall::Leave(node, notify) => {
            let next = v.leave(node, notify);
            lemma_flags(v, next, node);
            lemma_reap_wf(next, node);
            assert(kept_node(next, next.reap(node), n));
        },
        GrantCall::Register(node, event, listener) => {
            lemma_flags(v, after, node);
        },
        GrantCall::Retire(listener) => {
            lemma_flags(v, after, n);
        },
        GrantCall::Restrict(node, permissions, limits) => {
            if v.restrict_error(node, permissions, limits) is None {
                lemma_restrict_wf(v, node, permissions, limits);
                lemma_free_slot(v, 0);
                let at = v.nodes[node as int];
                let slot = v.free_slot(0);
                let generic = v.charge(
                    node,
                    None,
                    at.reservation(permissions, limits),
                    Owner::Child(slot),
                );
                lemma_charge_each_keeps(
                    generic,
                    node,
                    at.event_charges(permissions),
                    Owner::Child(slot),
                );
            } else {
                lemma_signals_wf(v, after);
            }
        },
        GrantCall::Share(node) => {
            lemma_flags(v, after, node);
        },
        GrantCall::GiveUp(node) => {
            let next = v.with_handles(node, -1);
            lemma_flags(v, next, node);
            lemma_reap_wf(next, node);
            assert(kept_node(next, next.reap(node), n));
        },
        GrantCall::Begin(node) => {
            lemma_cut_off_wf(v, node);
        },
        GrantCall::Settle(node) => {
            lemma_cutoff_complete_wf(v, node);
        },
        GrantCall::End(node) => {
            lemma_flags(v, after, node);
        },
        GrantCall::Signals(_) => {
            lemma_signals_wf(v, after);
        },
    }
}

/// Over any history in which someone refers to a grant, the ledger stays in order; a grant
/// that is revoked stays revoked, one whose revocation is complete stays so, and a revocation
/// that is under way stays under way until it is ended.
pub proof fn law_history(v: LedgerView, node: nat, calls: Seq<GrantCall>)
    requires
        v.wf(),
        node < v.nodes.len(),
        can_happen(v, node, calls),
    ensures
        ({
            let w = run(v, calls);
            &&& w.wf()
            &&& node < w.nodes.len()
            &&& v.nodes[node as int].revoked ==> w.nodes[node as int].revoked
            &&& v.nodes[node as int].complete ==> w.nodes[node as int].complete
            &&& v.nodes[node as int].revoking && !calls.contains(GrantCall::End(node))
                ==> w.nodes[node as int].revoking
        }),
    decreases calls.len(),
{
    if calls.len() > 0 {
        let rest = calls.drop_last();
        law_history(v, node, rest);
        lemma_called(run(v, rest), calls.last(), node);
        if !calls.contains(GrantCall::End(node)) {
            assert(calls[calls.len() - 1] == calls.last());
            assert(calls.last() != GrantCall::End(node));
            assert(!rest.contains(GrantCall::End(node))) by {
                if rest.contains(GrantCall::End(node)) {
                    let i = choose|i: int|
                        0 <= i < rest.len() && rest[i] == GrantCall::End(node);
                    assert(calls[i] == GrantCall::End(node));
                }
            }
        }
    }
}

/// In every ledger in order, all that descend from a revoked grant are revoked: nothing of
/// them is admitted any more, and what they have reserved stays charged.
pub proof fn law_revoked_subtree(v: LedgerView, node: nat, m: nat)
    requires
        v.wf(),
        node < v.nodes.len(),
        m < v.nodes.len(),
        v.descends(m, node),
        v.nodes[node as int].revoked,
    ensures
        v.nodes[m as int].revoked,
        forall|event: EventId, right: Rights| #[trigger]
            v.nodes[m as int].check_error(event, right) == Some(TopicError::Revoked),
        forall|event: EventId, right: Rights| #[trigger]
            v.enter_error(m, event, right) == Some(TopicError::Revoked),
        v.nodes[m as int].active > 0 ==> !v.quiet(node),
        forall|i: int|
            0 <= i < v.nodes[m as int].reservations.len() ==> v.outstanding(
                #[trigger] v.nodes[m as int].reservations[i],
            ) && v.record(v.nodes[m as int].reservations[i]).owner == Owner::Child(m),
{
    lemma_subtree_revoked(v, m, node);
    assert(v.reservation_sound(m));
}

/// A revocation that was begun and not turned away cuts the grant and all that descend from
/// it off for good, whatever happens later, and takes nothing from what is charged. It is not
/// settled while an operation in the subtree is under way. Another one is turned away
/// meanwhile, until this one is ended; ending it keeps the cutoff and lets the next one begin.
/// Once it has completed, every later one succeeds at once.
pub proof fn law_revoke(v: LedgerView, node: nat, calls: Seq<GrantCall>)
    requires
        v.wf(),
        node < v.nodes.len(),
        v.begin_revocation(node).0 is Ok,
        can_happen(v.begin_revocation(node).1, node, calls),
    ensures
        ({
            let begun = v.begin_revocation(node).1;
            let w = run(begun, calls);
            let ended = called(w, GrantCall::End(node));
            &&& begun.table == v.table
            &&& forall|m: nat|
                m < v.nodes.len() ==> (#[trigger] begun.nodes[m as int]).pool
                    == v.nodes[m as int].pool && begun.nodes[m as int].allowances
                    == v.nodes[m as int].allowances
            &&& w.wf()
            &&& w.nodes[node as int].revoked
            &&& forall|m: nat|
                m < w.nodes.len() && #[trigger] w.descends(m, node) ==> {
                    &&& w.nodes[m as int].revoked
                    &&& forall|event: EventId, right: Rights| #[trigger]
                        w.nodes[m as int].check_error(event, right) == Some(TopicError::Revoked)
                    &&& w.nodes[m as int].active > 0 ==> !w.quiet(node)
                    &&& forall|i: int|
                        0 <= i < w.nodes[m as int].reservations.len() ==> w.outstanding(
                            #[trigger] w.nodes[m as int].reservations[i],
                        )
                }
            &&& w.quiet(node) ==> called(w, GrantCall::Settle(node)).nodes[node as int].complete
            &&& !w.nodes[node as int].complete && !calls.contains(GrantCall::End(node))
                ==> w.begin_revocation(node) == (
                Err::<Revocation, TopicError>(TopicError::Capacity),
                w,
            )
            &&& ended.nodes[node as int].revoked
            &&& ended.begin_revocation(node).0 is Ok
            &&& w.nodes[node as int].complete ==> w.begin_revocation(node) == (
                Ok::<Revocation, TopicError>(Revocation::Complete),
                w,
            )
        }),
{
    let begun = v.begin_revocation(node).1;
    let w = run(begun, calls);
    assert(v.node_sound(node));
    lemma_cut_off_wf(v, node);
    assert(begun.nodes[node as int].revoked);
    law_history(begun, node, calls);
    assert forall|m: nat| m < w.nodes.len() && #[trigger] w.descends(m, node) implies {
        &&& w.nodes[m as int].revoked
        &&& forall|event: EventId, right: Rights| #[trigger]
            w.nodes[m as int].check_error(event, right) == Some(TopicError::Revoked)
        &&& w.nodes[m as int].active > 0 ==> !w.quiet(node)
        &&& forall|i: int|
            0 <= i < w.nodes[m as int].reservations.len() ==> w.outstanding(
                #[trigger] w.nodes[m as int].reservations[i],
            )
    } by {
        law_revoked_subtree(w, node, m);
    }
}

} // verus!
