//! What links hold of their grants, and what is left when they end.
use crate::fabric_laws::{fewer, lemma_retire_consumed_wf, lemma_unlock_wf};
use crate::fabric_model::{one_subscription, FabricView};
use crate::fabric_steps::{
    lemma_consumed_unneeded, lemma_delist, lemma_end_wait, lemma_returned,
};
use crate::grant::{Limits, RESOURCES};
use crate::grant_laws::{law_usage_is_outstanding, on_grant};
use crate::ipc::{link_allowance, CREDIT_BYTES, HEADER_BYTES};
use crate::ledger_laws::{kept_node, lemma_node_change, lemma_reap_wf};
use crate::ledger_model::{lemma_tally_update, LedgerView};
use crate::unix_export::{ExportStage, ExportView};
use crate::unix_import::{ImportStage, ImportView};
use crate::unix_link::{else_unused, law_ended_usage, lemma_else_unused, used_besides};
use vstd::prelude::*;

verus! {

/// What is left of a ledger after a part of what was outstanding has returned: no charge is
/// new, and grants have `change` more handles in slot `node` and elsewhere as many as before.
spec fn lessened(before: LedgerView, after: LedgerView, node: nat, change: int) -> bool {
    &&& after.wf()
    &&& fewer(before, after)
    &&& after.table.len() == before.table.len()
    &&& after.nodes.len() == before.nodes.len()
    &&& after.nodes[node as int].handles == before.nodes[node as int].handles + change
}

/// The charge stays.
spec fn stays_charged(before: LedgerView, after: LedgerView, ticket: nat) -> bool {
    before.outstanding(ticket) && !(before.record(ticket).owner is Child) && !(before.record(
        ticket,
    ).owner is Entry) ==> after.outstanding(ticket) && after.record(ticket) == before.record(ticket)
}

proof fn lemma_put_back(ledger: LedgerView, ticket: nat, node: nat)
    requires
        ledger.wf(),
        ledger.outstanding(ticket),
        !(ledger.record(ticket).owner is Child),
        node < ledger.nodes.len(),
    ensures
        ({
            let after = ledger.release(ticket).reap(ledger.record(ticket).node);
            &&& lessened(ledger, after, node, 0)
            &&& !after.outstanding(ticket)
            &&& forall|t: nat| t != ticket ==> #[trigger] stays_charged(ledger, after, t)
        }),
{
    lemma_returned(ledger, ticket);
    let after = ledger.release(ticket).reap(ledger.record(ticket).node);
    assert(kept_node(ledger, after, node));
}

proof fn lemma_given_up(ledger: LedgerView, node: nat)
    requires
        ledger.wf(),
        node < ledger.nodes.len(),
        ledger.nodes[node as int].handles > 0,
    ensures
        ({
            let after = ledger.with_handles(node, -1).reap(node);
            &&& lessened(ledger, after, node, -1)
            &&& forall|t: nat| #[trigger] stays_charged(ledger, after, t)
        }),
{
    let middle = ledger.with_handles(node, -1);
    let after = middle.reap(node);
    lemma_node_change(ledger, middle);
    assert forall|m: nat| m < middle.nodes.len() && m != node implies !#[trigger] middle.must_reap(
        m,
    ) by {
        assert(!ledger.must_reap(m));
    }
    lemma_reap_wf(middle, node);
    assert(kept_node(middle, after, node));
    assert(fewer(ledger, after)) by {
        assert forall|t: nat| #[trigger] after.outstanding(t) implies ledger.outstanding(t)
            && after.record(t) == ledger.record(t) by {
            assert(middle.outstanding(t));
        }
    }
    assert forall|t: nat| #[trigger] stays_charged(ledger, after, t) by {
        if ledger.outstanding(t) {
            assert(middle.outstanding(t));
        }
    }
}

proof fn lemma_lessened_twice(
    a: LedgerView,
    b: LedgerView,
    c: LedgerView,
    node: nat,
    first: int,
    second: int,
)
    requires
        lessened(a, b, node, first),
        lessened(b, c, node, second),
    ensures
        lessened(a, c, node, first + second),
{
    assert forall|t: nat| #[trigger] c.outstanding(t) implies a.outstanding(t) && c.record(t)
        == a.record(t) by {
        assert(b.outstanding(t));
    }
}

/// An importing link that runs has in use, of its grant, what a link takes: two connections,
/// the bytes of a frame and two credits, and so on. Where nothing else of a resource is
/// charged, that is all that is in use.
pub proof fn law_import_charged<T, P>(link: ImportView<T>, v: FabricView<P>, k: int)
    requires
        link.held(v),
        0 <= k < RESOURCES,
    ensures
        v.ledger.nodes[link.node as int].used(k) == link_allowance(link.limit).get(k)
            + used_besides(v.ledger, link.node, link.lease, k),
        else_unused(v.ledger, link.node, k, link.lease, link.lease)
            ==> v.ledger.nodes[link.node as int].used(k) == link_allowance(link.limit).get(k),
        link_allowance(link.limit).connections == 2,
        link_allowance(link.limit).bytes == link.limit + HEADER_BYTES + 2 * CREDIT_BYTES,
{
    let ledger = v.ledger;
    law_usage_is_outstanding(ledger, link.node, k);
    lemma_tally_update(ledger.table, link.lease as int, None, on_grant(link.node, k));
    if else_unused(ledger, link.node, k, link.lease, link.lease) {
        lemma_else_unused(ledger, link.node, k, link.lease, link.lease);
        let first = ledger.table.update(link.lease as int, None);
        assert(first.update(link.lease as int, None) =~= first);
    }
}

/// An importing link that ends, by a failure or from outside, leaves nothing of its own
/// charged and nothing new. Where nothing else of a resource was charged, nothing of it is in
/// use.
pub proof fn law_import_ended<T, P>(link: ImportView<T>, v: FabricView<P>, k: int)
    requires
        link.held(v),
        0 <= k < RESOURCES,
    ensures
        link.gone(v.ledger, link.ended(v).ledger),
        else_unused(v.ledger, link.node, k, link.lease, link.lease) ==> link.ended(
            v,
        ).ledger.nodes[link.node as int].used(k) == 0,
{
    let node = link.node;
    let quiet = match link.stage {
        ImportStage::Sending(_, _, ticket) => v.end_wait(link.stream, ticket),
        _ => v,
    };
    match link.stage {
        ImportStage::Sending(_, _, ticket) => {
            lemma_put_back(v.ledger, ticket, node);
            assert(stays_charged(v.ledger, quiet.ledger, link.lease));
        },
        _ => {},
    }
    let a = quiet.ledger;
    lemma_given_up(a, node);
    let b = a.with_handles(node, -1).reap(node);
    assert(stays_charged(a, b, link.lease));
    lemma_put_back(b, link.lease, node);
    let c = b.release(link.lease).reap(b.record(link.lease).node);
    lemma_given_up(c, node);
    let d = c.with_handles(node, -1).reap(node);
    lemma_lessened_twice(a, b, c, node, -1, 0);
    lemma_lessened_twice(a, c, d, node, -1, -1);
    if link.stage is Sending {
        lemma_lessened_twice(v.ledger, a, d, node, 0, -2);
    }
    assert(link.ended(v).ledger == d);
    law_ended_usage(d, node, link.lease, k);
    if else_unused(v.ledger, node, k, link.lease, link.lease) {
        assert(else_unused(d, node, k, link.lease, link.lease));
    }
}

/// An exporting link that runs has in use, of its grant, what a link takes and one
/// subscription. Where nothing else of a resource is charged, that is all that is in use.
pub proof fn law_export_charged<P>(link: ExportView, v: FabricView<P>, k: int)
    requires
        link.held(v),
        0 <= k < RESOURCES,
    ensures
        else_unused(v.ledger, link.node, k, link.lease, link.ticket)
            ==> v.ledger.nodes[link.node as int].used(k) == link_allowance(link.limit).get(k)
            + one_subscription().widened().get(k),
        link_allowance(link.limit).connections == 2,
        link_allowance(link.limit).bytes == link.limit + HEADER_BYTES + 2 * CREDIT_BYTES,
        one_subscription().widened() == (Limits { subscriptions: 1, ..Limits::none() }),
{
    let ledger = v.ledger;
    law_usage_is_outstanding(ledger, link.node, k);
    let first = ledger.table.update(link.lease as int, None);
    lemma_tally_update(ledger.table, link.lease as int, None, on_grant(link.node, k));
    assert(first[link.ticket as int] == ledger.table[link.ticket as int]);
    lemma_tally_update(first, link.ticket as int, None, on_grant(link.node, k));
    if else_unused(ledger, link.node, k, link.lease, link.ticket) {
        lemma_else_unused(ledger, link.node, k, link.lease, link.ticket);
    }
}

/// Reclaiming publications gives charges back and leaves handles alone.
proof fn lemma_retired<P>(v: FabricView<P>, s: nat, tries: nat, node: nat)
    requires
        v.wf(),
        s < v.streams.len(),
        node < v.ledger.nodes.len(),
    ensures
        lessened(v.ledger, v.retire_consumed(s, tries).ledger, node, 0),
        forall|t: nat| #[trigger]
            stays_charged(v.ledger, v.retire_consumed(s, tries).ledger, t),
    decreases tries,
{
    let st = v.streams[s as int];
    let after = v.retire_consumed(s, tries);
    lemma_retire_consumed_wf(v, s, tries);
    if tries > 0 && st.entries.len() > 0 && v.consumed(s, st.entries[0].sequence) {
        let front = st.entries[0];
        assert(v.stream_sound(s));
        assert(v.ledger.outstanding(front.ticket));
        lemma_consumed_unneeded(v, s, front.sequence);
        let opened = v.without_front(s).unlock(s, true);
        crate::ledger::lemma_signals_wf(v.ledger, opened.ledger);
        lemma_put_back(opened.ledger, front.ticket, node);
        let next = v.retire_front(s);
        crate::fabric_laws::lemma_retire_front_wf(v, s);
        lemma_retired(next, s, (tries - 1) as nat, node);
        assert(lessened(v.ledger, next.ledger, node, 0)) by {
            assert forall|t: nat| #[trigger] next.ledger.outstanding(t) implies
                v.ledger.outstanding(t) && next.ledger.record(t) == v.ledger.record(t) by {
                assert(opened.ledger.outstanding(t));
            }
        }
        lemma_lessened_twice(v.ledger, next.ledger, after.ledger, node, 0, 0);
        assert forall|t: nat| #[trigger] stays_charged(v.ledger, after.ledger, t) by {
            if t != front.ticket {
                assert(stays_charged(opened.ledger, next.ledger, t));
            }
            assert(stays_charged(next.ledger, after.ledger, t));
        }
    }
}

/// An exporting link that ends, by a failure or from outside, leaves nothing of its own
/// charged and nothing new. Where nothing else of a resource was charged, nothing of it is in
/// use.
pub proof fn law_export_ended<P>(link: ExportView, v: FabricView<P>, k: int)
    requires
        link.held(v),
        0 <= k < RESOURCES,
    ensures
        link.gone(v.ledger, link.ended(v).ledger),
        else_unused(v.ledger, link.node, k, link.lease, link.ticket) ==> link.ended(
            v,
        ).ledger.nodes[link.node as int].used(k) == 0,
{
    let node = link.node;
    let s = link.stream;
    let quiet = match link.stage {
        ExportStage::Receiving(ticket) => v.end_wait(s, ticket),
        _ => v,
    };
    match link.stage {
        ExportStage::Receiving(ticket) => {
            lemma_put_back(v.ledger, ticket, node);
            lemma_returned(v.ledger, ticket);
            lemma_end_wait(v, quiet.ledger, s, ticket);
            assert(stays_charged(v.ledger, quiet.ledger, link.lease));
            assert(stays_charged(v.ledger, quiet.ledger, link.ticket));
        },
        _ => {},
    }
    let capacity = quiet.streams[s as int].config.capacity as nat;
    lemma_delist(quiet, s, link.index);
    let opened = quiet.delist(s, link.index).unlock(s, true);
    lemma_unlock_wf(quiet.delist(s, link.index), s, true);
    let retired = opened.retire_consumed(s, capacity);
    lemma_retired(opened, s, capacity, node);
    assert(stays_charged(opened.ledger, retired.ledger, link.lease));
    assert(stays_charged(opened.ledger, retired.ledger, link.ticket));
    let a = retired.ledger;
    lemma_given_up(a, node);
    let b = a.with_handles(node, -1).reap(node);
    assert(stays_charged(a, b, link.lease));
    assert(stays_charged(a, b, link.ticket));
    lemma_put_back(b, link.ticket, node);
    let c = b.release(link.ticket).reap(b.record(link.ticket).node);
    assert(stays_charged(b, c, link.lease));
    lemma_put_back(c, link.lease, node);
    let d = c.release(link.lease).reap(c.record(link.lease).node);
    lemma_given_up(d, node);
    let e = d.with_handles(node, -1).reap(node);
    lemma_lessened_twice(a, b, c, node, -1, 0);
    lemma_lessened_twice(a, c, d, node, -1, 0);
    lemma_lessened_twice(a, d, e, node, -1, -1);
    assert(lessened(v.ledger, a, node, 0)) by {
        assert forall|t: nat| #[trigger] a.outstanding(t) implies v.ledger.outstanding(t)
            && a.record(t) == v.ledger.record(t) by {
            assert(opened.ledger.outstanding(t));
            assert(quiet.ledger.outstanding(t));
        }
    }
    lemma_lessened_twice(v.ledger, a, e, node, 0, -2);
    assert(link.ended(v).ledger == e);
    assert(!e.outstanding(link.lease)) by {
        if e.outstanding(link.lease) {
            assert(d.outstanding(link.lease));
        }
    }
    assert(!e.outstanding(link.ticket)) by {
        if e.outstanding(link.ticket) {
            assert(d.outstanding(link.ticket));
            assert(c.outstanding(link.ticket));
        }
    }
    match link.stage {
        ExportStage::Receiving(ticket) => {
            if e.outstanding(ticket) {
                assert(a.outstanding(ticket));
                assert(opened.ledger.outstanding(ticket));
            }
        },
        _ => {},
    }
    law_ended_usage(e, node, link.lease, k);
    if else_unused(v.ledger, node, k, link.lease, link.ticket) {
        assert(else_unused(e, node, k, link.lease, link.lease));
    }
}

} // verus!
