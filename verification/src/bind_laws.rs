//! Which links can be bound, what they take, and what they are when they are.
use crate::authority_laws::{fit, law_charge_accepts};
use crate::error::TopicError;
use crate::fabric::DynamicFabric;
use crate::fabric_model::{publish_right, role_rights, Declaration, FabricView};
use crate::grant::{Limits, Rights};
use crate::ipc::{bound_fits, link_allowance, IpcError, IpcFault};
use crate::item::SubscriptionRole;
use crate::member_laws::{law_admission, permitted};
use crate::payload::Carries;
use crate::unix_export::{
    bind_export, claim_export, export_bound, exported, ExportView, UnixExport,
};
use crate::unix_import::{
    bind_import, claim_import, import_bound, imported, ImportStage, ImportView, UnixImport,
};
use crate::unix_link::{
    bind_both, link_exported, link_imported, link_relayed, relay_outcome, UnixLink,
};
use crate::wire::WireCodec;
use vstd::prelude::*;

verus! {

/// What a link takes from its grant: two connections, one item, two waiters, and the bytes of
/// one payload, one header and two credits. The payload bound must fit the four bytes that a
/// header has for it.
pub proof fn law_link_allowance(max_payload: nat)
    ensures
        bound_fits(max_payload) <==> max_payload <= 0xffff_ffff && max_payload + 38 + 9 + 9
            <= usize::MAX,
        bound_fits(max_payload) ==> link_allowance(max_payload) == (Limits {
            streams: 0,
            grants: 0,
            subscriptions: 0,
            retained_items: 1,
            waiters: 2,
            connections: 2,
            bytes: (max_payload + 38 + 9 + 9) as usize,
        }),
{
}

proof fn lemma_same_find<P>(
    v: FabricView<P>,
    w: FabricView<P>,
    event: crate::event::EventId,
    from: nat,
)
    requires
        v.streams == w.streams,
    ensures
        v.find(event, from) == w.find(event, from),
    decreases v.streams.len() - from,
{
    if from < v.streams.len() && v.streams[from as int].declaration.event != event {
        lemma_same_find(v, w, event, from + 1);
    }
}

/// Why a link cannot have what it takes of its grant, if it cannot, by what is looked at first:
/// the grant and the operations, the payload bound, and the allowance.
pub open spec fn link_refusal<P>(
    v: FabricView<P>,
    node: nat,
    declaration: Declaration,
    want: u8,
    max_payload: nat,
) -> Option<TopicError> {
    let at = v.ledger.nodes[node as int];
    if at.revoked {
        Some(TopicError::Revoked)
    } else if !permitted(at, declaration.event, want) {
        Some(TopicError::Denied)
    } else if at.active >= usize::MAX / 2 {
        Some(TopicError::Capacity)
    } else if max_payload > 0xffff_ffff || max_payload + 38 + 9 + 9 > usize::MAX {
        Some(TopicError::InvalidConfig)
    } else if at.leases == usize::MAX || !fit(
        at.pool.used,
        Limits {
            streams: 0,
            grants: 0,
            subscriptions: 0,
            retained_items: 1,
            waiters: 2,
            connections: 2,
            bytes: (max_payload + 38 + 9 + 9) as usize,
        },
        at.pool.limits,
    ) {
        Some(TopicError::Capacity)
    } else {
        None
    }
}

/// Which importing links are bound: those whose grant may publish and has room for a link, in
/// whose stream it then gets to publish, and which the machine gives a buffer.
pub proof fn law_import_binds<P>(
    v: FabricView<P>,
    node: nat,
    declaration: Declaration,
    max_payload: nat,
    allocated: bool,
)
    requires
        v.wf(),
        node < v.ledger.nodes.len(),
    ensures
        ({
            let refusal = link_refusal(v, node, declaration, 1, max_payload);
            let charged = v.charge_link(node, link_allowance(max_payload));
            let found = charged.sender(node, declaration).0;
            let bound = bind_import(v, node, declaration, max_payload, allocated).0;
            &&& bound == if refusal is Some {
                Err::<(nat, nat), IpcFault>(IpcFault::Topic(refusal->0))
            } else if found is Err {
                Err::<(nat, nat), IpcFault>(IpcFault::Topic(found->Err_0))
            } else if !allocated {
                Err::<(nat, nat), IpcFault>(IpcFault::Topic(TopicError::Capacity))
            } else {
                Ok::<(nat, nat), IpcFault>((found->Ok_0, v.ledger.table.len()))
            }
            &&& refusal is None ==> charged.resolve(node, declaration, publish_right()).0
                == v.resolve(node, declaration, publish_right()).0
            &&& refusal is None ==> charged.ledger.table.last() == Some(
                crate::ipc::link_charge(node, max_payload),
            )
        }),
{
    broadcast use Rights::lemma_of_bits;

    reveal(claim_import);
    reveal(bind_import);
    law_admission(v.ledger, node, declaration.event, publish_right());
    law_link_allowance(max_payload);
    law_charge_accepts(v.ledger, node, None, link_allowance(max_payload));
    lemma_charged_resolves(v, node, declaration, publish_right(), max_payload);
}

/// The charge of a link changes nothing of what its grant resolves.
proof fn lemma_charged_resolves<P>(
    v: FabricView<P>,
    node: nat,
    declaration: Declaration,
    rights: Rights,
    max_payload: nat,
)
    requires
        node < v.ledger.nodes.len(),
    ensures
        v.charge_link(node, link_allowance(max_payload)).resolve(node, declaration, rights).0
            == v.resolve(node, declaration, rights).0,
{
    let charged = v.charge_link(node, link_allowance(max_payload));
    let at = v.ledger.nodes[node as int];
    let now = charged.ledger.nodes[node as int];
    law_admission(v.ledger, node, declaration.event, rights);
    law_admission(charged.ledger, node, declaration.event, rights);
    assert(now.allowances == at.allowances);
    assert(permitted(now, declaration.event, rights.bits()) == permitted(
        at,
        declaration.event,
        rights.bits(),
    ));
    lemma_same_find(v, charged, declaration.event, 0);
}

/// Which exporting links are bound: those whose grant may take the role and has room for a
/// link, which then get their subscription, and which the machine gives a buffer.
pub proof fn law_export_binds<P>(
    v: FabricView<P>,
    node: nat,
    declaration: Declaration,
    role: SubscriptionRole,
    max_payload: nat,
    allocated: bool,
)
    requires
        v.wf(),
        node < v.ledger.nodes.len(),
    ensures
        ({
            let want = if role == SubscriptionRole::Required {
                6u8
            } else {
                2u8
            };
            let refusal = link_refusal(v, node, declaration, want, max_payload);
            let charged = v.charge_link(node, link_allowance(max_payload));
            let found = charged.subscribe(node, declaration, role).0;
            let bound = bind_export(v, node, declaration, role, max_payload, allocated).0;
            &&& bound == if refusal is Some {
                Err::<(nat, nat, nat), IpcFault>(IpcFault::Topic(refusal->0))
            } else if found is Err {
                Err::<(nat, nat, nat), IpcFault>(IpcFault::Topic(found->Err_0))
            } else if !allocated {
                Err::<(nat, nat, nat), IpcFault>(IpcFault::Topic(TopicError::Capacity))
            } else {
                Ok::<(nat, nat, nat), IpcFault>(
                    (found->Ok_0.0, found->Ok_0.1, v.ledger.table.len()),
                )
            }
            &&& charged.resolve(node, declaration, role_rights(role)).0 == v.resolve(
                node,
                declaration,
                role_rights(role),
            ).0
            &&& refusal is None ==> charged.ledger.table.last() == Some(
                crate::ipc::link_charge(node, max_payload),
            )
        }),
{
    broadcast use Rights::lemma_of_bits;

    reveal(claim_export);
    reveal(bind_export);
    law_admission(v.ledger, node, declaration.event, role_rights(role));
    law_link_allowance(max_payload);
    law_charge_accepts(v.ledger, node, None, link_allowance(max_payload));
    lemma_charged_resolves(v, node, declaration, role_rights(role), max_payload);
}

/// A link that is bound has seen nothing: an importing one begins with a header, and may take
/// any sequence for the first; an exporting one has nothing in flight and looks for what its
/// subscription has first.
pub proof fn law_bound_links<T, P>(
    v: FabricView<P>,
    node: nat,
    stream: nat,
    index: nat,
    lease: nat,
    max_payload: nat,
)
    ensures
        imported::<T>(node, stream, lease, max_payload) == (ImportView::<T> {
            node,
            stream,
            lease,
            limit: max_payload,
            previous: None,
            stage: ImportStage::Header(Seq::empty()),
        }),
        ({
            let link = exported(v, node, stream, index, lease, max_payload);
            let cursor = v.streams[stream as int].subscribers[index as int]->0;
            &&& link.node == node
            &&& link.stream == stream
            &&& link.index == index
            &&& link.id == cursor.id
            &&& link.ticket == cursor.ticket
            &&& link.lease == lease
            &&& link.limit == max_payload
            &&& !link.outstanding
            &&& link.control.len() == 0
            &&& !link.again
            &&& link.stage is Ready
        }),
{
}

/// A relay is bound exactly if its exporting leg is and then its importing one; the first that
/// fails is what it fails with, and the leg that was bound ends.
pub proof fn law_relay_binds<T, P>(
    v: FabricView<P>,
    node: nat,
    declaration: Declaration,
    role: SubscriptionRole,
    max_payload: nat,
    first: bool,
    second: bool,
)
    ensures
        ({
            let (out, a) = bind_export(
                v.with_handles(node, 1),
                node,
                declaration,
                role,
                max_payload,
                first,
            );
            let (back, b) = bind_import(a, node, declaration, max_payload, second);
            let (bound, after) = bind_both::<T, P>(
                v,
                node,
                declaration,
                role,
                max_payload,
                first,
                second,
            );
            let export = exported(a, node, out->Ok_0.0, out->Ok_0.1, out->Ok_0.2, max_payload);
            &&& bound is Ok <==> out is Ok && back is Ok
            &&& out is Err ==> bound->Err_0 == out->Err_0 && after == a.drop_handle(node)
            &&& out is Ok && back is Err ==> bound->Err_0 == back->Err_0 && after
                == export.ended(b)
            &&& bound is Ok ==> {
                &&& bound->Ok_0.0 == export
                &&& bound->Ok_0.1 == imported::<T>(
                    node,
                    back->Ok_0.0,
                    back->Ok_0.1,
                    max_payload,
                )
                &&& after == b
            }
        }),
{
}

/// A relay ends as soon as one of its legs fails, with that failure, and with the importing
/// leg's if both do; without a failure it ends when both legs are done.
pub proof fn law_relay_ends(import: Option<Option<IpcFault>>, export: Option<Option<IpcFault>>)
    ensures
        relay_outcome(import, export) == if import is Some && import->0 is Some {
            import
        } else if export is Some && export->0 is Some {
            export
        } else if import is Some && export is Some {
            Some(None)
        } else {
            None
        },
{
}

/// What a caller gets of an importing link: the link itself exactly if one was bound, fresh,
/// for the grant and the payload bound that were asked for; and else the failure.
pub proof fn law_import_result<E: WireCodec, P: Carries<E::Payload>>(
    single: Result<UnixImport<E>, IpcError>,
    whole: Result<UnixLink<E>, IpcError>,
    fabric: DynamicFabric<P>,
    node: nat,
    max_payload: nat,
    outcome: (Result<(nat, nat), IpcFault>, FabricView<P>),
)
    requires
        import_bound(single, &fabric, node, max_payload, outcome),
        link_imported(whole, &fabric, node, max_payload, outcome),
    ensures
        fabric@ == outcome.1,
        single is Ok <==> outcome.0 is Ok,
        whole is Ok <==> outcome.0 is Ok,
        single matches Err(error) ==> error@ == outcome.0->Err_0,
        whole matches Err(error) ==> error@ == outcome.0->Err_0,
        whole matches Ok(link) ==> link@.export is None && link@.import is Some
            && link@.import == single->Ok_0@,
        single matches Ok(link) ==> {
            let view = link@->0;
            &&& link@ is Some
            &&& view.node == node
            &&& (view.stream, view.lease) == outcome.0->Ok_0
            &&& view.limit == max_payload
            &&& view.previous is None
            &&& view.stage == ImportStage::<E::Payload>::Header(Seq::empty())
        },
{
}

/// What a caller gets of an exporting link: the link itself exactly if one was bound, fresh,
/// for the grant and the payload bound that were asked for; and else the failure.
pub proof fn law_export_result<E: WireCodec, P: Carries<E::Payload>>(
    single: Result<UnixExport<E>, IpcError>,
    whole: Result<UnixLink<E>, IpcError>,
    fabric: DynamicFabric<P>,
    node: nat,
    max_payload: nat,
    outcome: (Result<(nat, nat, nat), IpcFault>, FabricView<P>),
)
    requires
        export_bound(single, &fabric, node, max_payload, outcome),
        link_exported(whole, &fabric, node, max_payload, outcome),
    ensures
        fabric@ == outcome.1,
        single is Ok <==> outcome.0 is Ok,
        whole is Ok <==> outcome.0 is Ok,
        single matches Err(error) ==> error@ == outcome.0->Err_0,
        whole matches Err(error) ==> error@ == outcome.0->Err_0,
        whole matches Ok(link) ==> link@.import is None && link@.export is Some
            && link@.export == single->Ok_0@,
        single matches Ok(link) ==> {
            let view = link@->0;
            &&& link@ is Some
            &&& view.node == node
            &&& (view.stream, view.index, view.lease) == outcome.0->Ok_0
            &&& view.limit == max_payload
            &&& !view.outstanding
            &&& view.control.len() == 0
            &&& view.stage is Ready
        },
{
}

/// What a caller gets of a relay: both legs exactly if both were bound; and else the failure.
pub proof fn law_relay_result<E: WireCodec, P: Carries<E::Payload>>(
    whole: Result<UnixLink<E>, IpcError>,
    fabric: DynamicFabric<P>,
    outcome: (Result<(ExportView, ImportView<E::Payload>), IpcFault>, FabricView<P>),
)
    requires
        link_relayed(whole, &fabric, outcome),
    ensures
        fabric@ == outcome.1,
        whole is Ok <==> outcome.0 is Ok,
        whole matches Err(error) ==> error@ == outcome.0->Err_0,
        whole matches Ok(link) ==> (link@.export, link@.import) == (
            Some(outcome.0->Ok_0.0),
            Some(outcome.0->Ok_0.1),
        ),
{
}

} // verus!
