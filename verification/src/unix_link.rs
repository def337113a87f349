//! Links between explicitly authorized endpoints, and what their ends owe each other.
use crate::fabric::{declared, DynamicFabric};
use crate::fabric_laws::{fewer, lasting, settled};
use crate::fabric_model::{one_subscription, Declaration, FabricView, SendVerdict};
use crate::grant::{Limits, RESOURCES};
use crate::grant_laws::{law_usage_is_outstanding, on_grant};
use crate::ipc::{
    control_closed, credit_bytes, early_end, header_bytes, header_fault, header_sequence,
    law_credit, law_link_header, link_allowance, IpcError, IpcFault, LinkAction, LinkReply,
    CREDIT_BYTES, HEADER_BYTES,
};
use crate::item::SubscriptionRole;
use crate::ledger::{Grant, Ledger};
use crate::ledger_model::{
    lemma_tally_update, lemma_tally_zero, tally, weight, LedgerView, Owner,
};
use crate::metadata::SchemaRevision;
use crate::payload::Carries;
use crate::reserve::Reservation;
use crate::stream_laws::law_send_now;
use crate::unix_export::{
    bind_export, claim_export, exported, lemma_unclaimed_export, Encoding, ExportEvent,
    ExportInput, ExportView, UnixExport,
};
use crate::unix_import::{
    bind_import, claim_import, imported, lemma_unclaimed_import, ImportEvent, ImportInput,
    ImportOutcome, ImportStage, ImportView, UnixImport,
};
use crate::wire::{WireCodec, WireError};
use vstd::prelude::*;

verus! {

broadcast use {Ledger::lemma_wf, DynamicFabric::lemma_wf};

/// Binding both legs of a relay: the two links, or the failure, and the fabric afterwards.
pub open spec fn bind_both<T, P>(
    v: FabricView<P>,
    node: nat,
    declaration: Declaration,
    role: SubscriptionRole,
    max_payload: nat,
    first: bool,
    second: bool,
) -> (Result<(ExportView, ImportView<T>), IpcFault>, FabricView<P>) {
    let (out, a) = bind_export(
        v.with_handles(node, 1),
        node,
        declaration,
        role,
        max_payload,
        first,
    );
    match out {
        Err(fault) => (Err(fault), a.drop_handle(node)),
        Ok((stream, index, lease)) => {
            let export = exported(a, node, stream, index, lease, max_payload);
            let (back, b) = bind_import(a, node, declaration, max_payload, second);
            match back {
                Err(fault) => (Err(fault), export.ended(b)),
                Ok((into, charge)) => (
                    Ok((export, imported(node, into, charge, max_payload))),
                    b,
                ),
            }
        },
    }
}

/// The legs of a link that are running.
pub struct LinkView<T> {
    /// The exporting leg.
    pub export: Option<ExportView>,
    /// The importing leg.
    pub import: Option<ImportView<T>>,
}

/// A link with an importing leg, or the failure to bind one, is what the model says.
pub open spec fn link_imported<E: WireCodec, P: Carries<E::Payload>>(
    result: Result<UnixLink<E>, IpcError>,
    fabric: &DynamicFabric<P>,
    node: nat,
    max_payload: nat,
    outcome: (Result<(nat, nat), IpcFault>, FabricView<P>),
) -> bool {
    &&& fabric@ == outcome.1
    &&& match outcome.0 {
        Ok((stream, lease)) => {
            &&& result matches Ok(link)
            &&& link.valid(fabric)
            &&& link@.export is None
            &&& link@.import == Some(imported::<E::Payload>(node, stream, lease, max_payload))
        },
        Err(fault) => result is Err && result->Err_0@ == fault,
    }
}

/// A link with an exporting leg, or the failure to bind one, is what the model says.
pub open spec fn link_exported<E: WireCodec, P: Carries<E::Payload>>(
    result: Result<UnixLink<E>, IpcError>,
    fabric: &DynamicFabric<P>,
    node: nat,
    max_payload: nat,
    outcome: (Result<(nat, nat, nat), IpcFault>, FabricView<P>),
) -> bool {
    &&& fabric@ == outcome.1
    &&& match outcome.0 {
        Ok((stream, index, lease)) => {
            &&& result matches Ok(link)
            &&& link.valid(fabric)
            &&& link@.import is None
            &&& link@.export == Some(
                exported(outcome.1, node, stream, index, lease, max_payload),
            )
        },
        Err(fault) => result is Err && result->Err_0@ == fault,
    }
}

/// A link with both legs, or the failure to bind one, is what the model says.
pub open spec fn link_relayed<E: WireCodec, P: Carries<E::Payload>>(
    result: Result<UnixLink<E>, IpcError>,
    fabric: &DynamicFabric<P>,
    outcome: (Result<(ExportView, ImportView<E::Payload>), IpcFault>, FabricView<P>),
) -> bool {
    &&& fabric@ == outcome.1
    &&& match outcome.0 {
        Ok((export, import)) => {
            &&& result matches Ok(link)
            &&& link.valid(fabric)
            &&& link@.export == Some(export)
            &&& link@.import == Some(import)
        },
        Err(fault) => result is Err && result->Err_0@ == fault,
    }
}

/// The importing leg of a relay comes to its payload buffer once the exporting leg has
/// its own, if `first`.
pub open spec fn second_asked<P>(
    v: FabricView<P>,
    node: nat,
    declaration: Declaration,
    role: SubscriptionRole,
    max_payload: nat,
    first: bool,
) -> bool {
    let (out, a) = bind_export(
        v.with_handles(node, 1),
        node,
        declaration,
        role,
        max_payload,
        first,
    );
    out is Ok && claim_import(a, node, declaration, max_payload).0 is Ok
}

/// Caller-driven link between explicitly authorized endpoints.
///
/// The application provides already-connected sockets through a protected bootstrap
/// channel. Socket paths, event identities and peer-supplied metadata grant no authority.
/// Each link carries exactly one event. A link has one leg, or two that relay one source;
/// failure of either leg closes both.
#[must_use]
pub struct UnixLink<E: WireCodec> {
    export: Option<UnixExport<E>>,
    import: Option<UnixImport<E>>,
}

impl<E: WireCodec> View for UnixLink<E> {
    type V = LinkView<E::Payload>;

    closed spec fn view(&self) -> LinkView<E::Payload> {
        LinkView {
            export: match self.export {
                Some(export) => export@,
                None => None,
            },
            import: match self.import {
                Some(import) => import@,
                None => None,
            },
        }
    }
}

/// Two running legs of one link charge the same grant, each for itself.
pub open spec fn apart<T, P>(export: ExportView, import: ImportView<T>, v: FabricView<P>) -> bool {
    &&& export.node == import.node
    &&& v.ledger.nodes[export.node as int].handles >= 4
    &&& forall|t: nat| #[trigger] export.owns(t) ==> !import.owns(t)
}

impl<E: WireCodec> UnixLink<E> {
    /// The link belongs to this fabric.
    pub closed spec fn valid<P: Carries<E::Payload>>(&self, fabric: &DynamicFabric<P>) -> bool {
        &&& self.export matches Some(export) ==> export.valid(fabric)
        &&& self.import matches Some(import) ==> import.valid(fabric)
        &&& self@.export is Some && self@.import is Some ==> apart(
            self@.export->0,
            self@.import->0,
            fabric@,
        )
    }

    /// Imports one wire event into the exact scoped stream named by `grant`.
    ///
    /// # Errors
    ///
    /// Fails as [`UnixImport::bind`] does.
    pub fn import<P: Carries<E::Payload>>(
        fabric: &mut DynamicFabric<P>,
        grant: Grant,
        max_payload: usize,
    ) -> (result: Result<UnixLink<E>, IpcError>)
        requires
            old(fabric).wf(),
            old(fabric).knows(&grant),
            grant.node() != old(fabric).root(),
            old(fabric)@.ledger.nodes[grant.node() as int].handles < usize::MAX,
        ensures
            final(fabric).wf(),
            final(fabric).root() == old(fabric).root(),
            ({
                let v = old(fabric)@;
                let node = grant.node();
                let d = declared::<E, P>();
                let m = max_payload as nat;
                if claim_import(v, node, d, m).0 is Err {
                    link_imported(result, final(fabric), node, m, claim_import(v, node, d, m))
                } else {
                    exists|room: Reservation| #[trigger]
                        room.is_for(m) && link_imported(
                            result,
                            final(fabric),
                            node,
                            m,
                            bind_import(v, node, d, m, room.granted()),
                        )
                }
            }),
            result is Err ==> fewer(old(fabric)@.ledger, final(fabric)@.ledger),
    {
        match UnixImport::<E>::bind(fabric, grant, max_payload) {
            Ok(import) => Ok(UnixLink { export: None, import: Some(import) }),
            Err(error) => Err(error),
        }
    }

    /// Imports one wire event with this outcome of the request for the payload buffer.
    ///
    /// # Errors
    ///
    /// Fails as [`UnixImport::bind_with`] does.
    pub fn import_with<P: Carries<E::Payload>>(
        fabric: &mut DynamicFabric<P>,
        grant: Grant,
        max_payload: usize,
        buffer: Option<Vec<u8>>,
    ) -> (result: Result<UnixLink<E>, IpcError>)
        requires
            old(fabric).wf(),
            old(fabric).knows(&grant),
            grant.node() != old(fabric).root(),
            old(fabric)@.ledger.nodes[grant.node() as int].handles < usize::MAX,
            buffer matches Some(bytes) ==> bytes@.len() == 0,
        ensures
            final(fabric).wf(),
            final(fabric).root() == old(fabric).root(),
            link_imported(
                result,
                final(fabric),
                grant.node(),
                max_payload as nat,
                bind_import(
                    old(fabric)@,
                    grant.node(),
                    declared::<E, P>(),
                    max_payload as nat,
                    buffer is Some,
                ),
            ),
            result is Err ==> fewer(old(fabric)@.ledger, final(fabric)@.ledger),
    {
        match UnixImport::<E>::bind_with(fabric, grant, max_payload, buffer) {
            Ok(import) => Ok(UnixLink { export: None, import: Some(import) }),
            Err(error) => Err(error),
        }
    }

    /// Exports a local stream.
    ///
    /// # Errors
    ///
    /// Fails as [`UnixExport::bind`] does.
    pub fn export<P: Carries<E::Payload>>(
        fabric: &mut DynamicFabric<P>,
        grant: Grant,
        role: SubscriptionRole,
        max_payload: usize,
    ) -> (result: Result<UnixLink<E>, IpcError>)
        requires
            old(fabric).wf(),
            old(fabric).knows(&grant),
            grant.node() != old(fabric).root(),
            old(fabric)@.ledger.nodes[grant.node() as int].handles < usize::MAX,
        ensures
            final(fabric).wf(),
            final(fabric).root() == old(fabric).root(),
            ({
                let v = old(fabric)@;
                let node = grant.node();
                let d = declared::<E, P>();
                let m = max_payload as nat;
                if claim_export(v, node, d, role, m).0 is Err {
                    link_exported(
                        result,
                        final(fabric),
                        node,
                        m,
                        claim_export(v, node, d, role, m),
                    )
                } else {
                    exists|room: Reservation| #[trigger]
                        room.is_for(m) && link_exported(
                            result,
                            final(fabric),
                            node,
                            m,
                            bind_export(v, node, d, role, m, room.granted()),
                        )
                }
            }),
            result is Err ==> fewer(old(fabric)@.ledger, final(fabric)@.ledger),
    {
        match UnixExport::<E>::bind(fabric, grant, role, max_payload) {
            Ok(export) => Ok(UnixLink { export: Some(export), import: None }),
            Err(error) => Err(error),
        }
    }

    /// Exports a local stream with this outcome of the request for the payload buffer.
    ///
    /// # Errors
    ///
    /// Fails as [`UnixExport::bind_with`] does.
    pub fn export_with<P: Carries<E::Payload>>(
        fabric: &mut DynamicFabric<P>,
        grant: Grant,
        role: SubscriptionRole,
        max_payload: usize,
        buffer: Option<Vec<u8>>,
    ) -> (result: Result<UnixLink<E>, IpcError>)
        requires
            old(fabric).wf(),
            old(fabric).knows(&grant),
            grant.node() != old(fabric).root(),
            old(fabric)@.ledger.nodes[grant.node() as int].handles < usize::MAX,
            buffer matches Some(bytes) ==> bytes@.len() == 0,
        ensures
            final(fabric).wf(),
            final(fabric).root() == old(fabric).root(),
            link_exported(
                result,
                final(fabric),
                grant.node(),
                max_payload as nat,
                bind_export(
                    old(fabric)@,
                    grant.node(),
                    declared::<E, P>(),
                    role,
                    max_payload as nat,
                    buffer is Some,
                ),
            ),
            result is Err ==> fewer(old(fabric)@.ledger, final(fabric)@.ledger),
    {
        match UnixExport::<E>::bind_with(fabric, grant, role, max_payload, buffer) {
            Ok(export) => Ok(UnixLink { export: Some(export), import: None }),
            Err(error) => Err(error),
        }
    }

    /// Joins two legs, or ends the first when there is no second.
    fn join<P: Carries<E::Payload>>(
        fabric: &mut DynamicFabric<P>,
        export: UnixExport<E>,
        import: Result<UnixImport<E>, IpcError>,
    ) -> (result: Result<UnixLink<E>, IpcError>)
        requires
            old(fabric).wf(),
            export.valid(old(fabric)),
            export@ is Some,
            import matches Ok(import) ==> {
                &&& import.valid(old(fabric))
                &&& import@ is Some
                &&& apart(export@->0, import@->0, old(fabric)@)
            },
        ensures
            final(fabric).wf(),
            final(fabric).root() == old(fabric).root(),
            match import {
                Ok(import) => {
                    &&& final(fabric)@ == old(fabric)@
                    &&& result matches Ok(link)
                    &&& link.valid(final(fabric))
                    &&& link@.export == export@
                    &&& link@.import == import@
                },
                Err(error) => {
                    &&& final(fabric)@ == export@->0.ended(old(fabric)@)
                    &&& result == Err::<UnixLink<E>, IpcError>(error)
                    &&& export@->0.gone(old(fabric)@.ledger, final(fabric)@.ledger)
                },
            },
    {
        match import {
            Ok(import) => Ok(UnixLink { export: Some(export), import: Some(import) }),
            Err(error) => {
                export.cancel(fabric);
                Err(error)
            },
        }
    }

    /// Relays one pre-authorized source through its local scoped stream.
    ///
    /// Both legs charge `source`; forwarding cannot switch to another budget. Incoming
    /// credit still means local acceptance, not downstream acceptance. Failure of either
    /// leg closes both.
    ///
    /// # Errors
    ///
    /// Requires publish and selected subscription rights plus both links' resource
    /// reservations. A failure releases all partial reservations.
    #[verifier::rlimit(40)]
    #[verifier::spinoff_prover]
    pub fn relay<P: Carries<E::Payload>>(
        fabric: &mut DynamicFabric<P>,
        source: Grant,
        role: SubscriptionRole,
        max_payload: usize,
    ) -> (result: Result<UnixLink<E>, IpcError>)
        requires
            old(fabric).wf(),
            old(fabric).knows(&source),
            source.node() != old(fabric).root(),
            old(fabric)@.ledger.nodes[source.node() as int].handles < usize::MAX - 2,
        ensures
            final(fabric).wf(),
            final(fabric).root() == old(fabric).root(),
            ({
                let v = old(fabric)@;
                let node = source.node();
                let d = declared::<E, P>();
                let m = max_payload as nat;
                if claim_export(v.with_handles(node, 1), node, d, role, m).0 is Err {
                    link_relayed(
                        result,
                        final(fabric),
                        bind_both(v, node, d, role, m, false, false),
                    )
                } else {
                    exists|first: Reservation| #[trigger]
                        first.is_for(m) && if !second_asked(
                            v,
                            node,
                            d,
                            role,
                            m,
                            first.granted(),
                        ) {
                            link_relayed(
                                result,
                                final(fabric),
                                bind_both(v, node, d, role, m, first.granted(), false),
                            )
                        } else {
                            exists|second: Reservation| #[trigger]
                                second.is_for(m) && link_relayed(
                                    result,
                                    final(fabric),
                                    bind_both(
                                        v,
                                        node,
                                        d,
                                        role,
                                        m,
                                        first.granted(),
                                        second.granted(),
                                    ),
                                )
                        }
                }
            }),
            result is Err ==> fewer(old(fabric)@.ledger, final(fabric)@.ledger),
    {
        let ghost v = fabric@;
        let ghost node = source.node();
        let ghost d = declared::<E, P>();
        let ghost m = max_payload as nat;
        let copy = source.duplicate(fabric);
        let ghost doubled = fabric@;
        proof {
            lemma_unclaimed_export(doubled, node, d, role, m, false);
        }
        match UnixExport::<E>::bind(fabric, copy, role, max_payload) {
            Ok(export) => {
                let ghost open = *fabric;
                proof {
                    export.lemma_holds(open);
                    lemma_unclaimed_import(open@, node, d, m, false);
                }
                let import = UnixImport::<E>::bind(fabric, source, max_payload);
                let ghost bound = fabric@;
                proof {
                    export.lemma_still_valid(open, *fabric);
                    if import is Ok {
                        assert forall|t: nat| #[trigger] export@->0.owns(
                            t,
                        ) implies !import->Ok_0@->0.owns(t) by {
                            assert(lasting(open@.ledger, t));
                        }
                    }
                }
                let result = Self::join(fabric, export, import);
                proof {
                    if import is Err {
                        lemma_joined(v, doubled, open@, bound, fabric@, export@->0);
                    }
                }
                result
            },
            Err(error) => {
                source.release(fabric);
                proof {
                    lemma_fewer(v.ledger, doubled.ledger, fabric@.ledger);
                }
                Err(error)
            },
        }
    }

    /// Relays one source with these outcomes of the requests for the payload buffers: of
    /// the exporting leg, which comes first, and of the importing leg.
    ///
    /// # Errors
    ///
    /// Fails as [`Self::relay`] does, and returns a failure for want of capacity when there
    /// is no buffer.
    #[verifier::spinoff_prover]
    pub fn relay_with<P: Carries<E::Payload>>(
        fabric: &mut DynamicFabric<P>,
        source: Grant,
        role: SubscriptionRole,
        max_payload: usize,
        first: Option<Vec<u8>>,
        second: Option<Vec<u8>>,
    ) -> (result: Result<UnixLink<E>, IpcError>)
        requires
            old(fabric).wf(),
            old(fabric).knows(&source),
            source.node() != old(fabric).root(),
            old(fabric)@.ledger.nodes[source.node() as int].handles < usize::MAX - 2,
            first matches Some(bytes) ==> bytes@.len() == 0,
            second matches Some(bytes) ==> bytes@.len() == 0,
        ensures
            final(fabric).wf(),
            final(fabric).root() == old(fabric).root(),
            link_relayed(
                result,
                final(fabric),
                bind_both(
                    old(fabric)@,
                    source.node(),
                    declared::<E, P>(),
                    role,
                    max_payload as nat,
                    first is Some,
                    second is Some,
                ),
            ),
            result is Err ==> fewer(old(fabric)@.ledger, final(fabric)@.ledger),
    {
        let ghost v = fabric@;
        let copy = source.duplicate(fabric);
        let ghost doubled = fabric@;
        match UnixExport::<E>::bind_with(fabric, copy, role, max_payload, first) {
            Ok(export) => {
                let ghost open = *fabric;
                proof {
                    export.lemma_holds(open);
                }
                let import = UnixImport::<E>::bind_with(fabric, source, max_payload, second);
                let ghost bound = fabric@;
                proof {
                    export.lemma_still_valid(open, *fabric);
                    if import is Ok {
                        assert forall|t: nat| #[trigger] export@->0.owns(
                            t,
                        ) implies !import->Ok_0@->0.owns(t) by {
                            assert(lasting(open@.ledger, t));
                        }
                    }
                }
                let result = Self::join(fabric, export, import);
                proof {
                    if import is Err {
                        lemma_joined(v, doubled, open@, bound, fabric@, export@->0);
                    }
                }
                result
            },
            Err(error) => {
                source.release(fabric);
                proof {
                    lemma_fewer(v.ledger, doubled.ledger, fabric@.ledger);
                }
                Err(error)
            },
        }
    }

    /// Tells the importing leg what happened, and what to do next. Its end is the end of
    /// the link.
    pub fn step_import<P: Carries<E::Payload>>(
        &mut self,
        fabric: &mut DynamicFabric<P>,
        event: ImportEvent<'_>,
    ) -> (action: LinkAction)
        requires
            old(fabric).wf(),
            old(self).valid(old(fabric)),
            old(self)@.import matches Some(leg) ==> leg.expects(event@),
        ensures
            final(fabric).wf(),
            final(fabric).root() == old(fabric).root(),
            final(self).valid(final(fabric)),
            match old(self)@.import {
                None => {
                    &&& action@ == LinkReply::Done(None)
                    &&& final(self)@ == old(self)@
                    &&& final(fabric)@ == old(fabric)@
                },
                Some(leg) => exists|decoded: Result<E::Payload, WireError>| #[trigger]
                    crate::unix_import::explains::<E>(
                        leg.completes(event@, declared::<E, P>()),
                        decoded,
                    ) && ({
                        let (reply, next, after) = leg.step(
                            old(fabric)@,
                            event@,
                            declared::<E, P>(),
                            decoded,
                        );
                        &&& action@ == reply
                        &&& final(self)@.import == next
                        &&& match next {
                            Some(_) => final(self)@.export == old(self)@.export && final(fabric)@
                                == after,
                            None => final(self)@.export is None && final(fabric)@ == match old(
                                self,
                            )@.export {
                                Some(other) => other.ended(after),
                                None => after,
                            },
                        }
                    }),
            },
            old(self)@.import is Some && final(self)@.import is None ==> {
                &&& old(self)@.import matches Some(leg) ==> leg.ends(final(fabric)@.ledger)
                &&& old(self)@.export matches Some(leg) ==> leg.ends(final(fabric)@.ledger)
            },
    {
        let ghost before = *fabric;
        let ghost was = self@;
        match self.import.take() {
            None => LinkAction::Done(Ok(())),
            Some(import) => {
                let mut import = import;
                if !import.is_running() {
                    self.import = Some(import);
                    return LinkAction::Done(Ok(()));
                }
                proof {
                    import.lemma_holds(before);
                    if self.export is Some {
                        self.export->0.lemma_holds(before);
                    }
                }
                let action = import.step(fabric, event);
                proof {
                    if self.export is Some {
                        self.export->0.lemma_still_valid(before, *fabric);
                    }
                }
                if import.is_running() {
                    proof {
                        if was.export is Some {
                            lemma_apart(
                                was.export->0,
                                was.import->0,
                                was.export->0,
                                import@->0,
                                before@,
                                fabric@,
                            );
                        }
                    }
                    self.import = Some(import);
                } else {
                    match self.export.take() {
                        Some(export) => export.cancel(fabric),
                        None => {},
                    }
                }
                action
            },
        }
    }

    /// Tells the exporting leg what happened, and what to do next. Its end is the end of
    /// the link.
    pub fn step_export<P: Carries<E::Payload>>(
        &mut self,
        fabric: &mut DynamicFabric<P>,
        event: ExportEvent<'_>,
    ) -> (action: LinkAction)
        requires
            old(fabric).wf(),
            old(self).valid(old(fabric)),
            old(self)@.export matches Some(leg) ==> leg.expects(event@),
        ensures
            final(fabric).wf(),
            final(fabric).root() == old(fabric).root(),
            final(self).valid(final(fabric)),
            match old(self)@.export {
                None => {
                    &&& action@ == LinkReply::Done(None)
                    &&& final(self)@ == old(self)@
                    &&& final(fabric)@ == old(fabric)@
                },
                Some(leg) => exists|encoding: Encoding| #[trigger]
                    crate::unix_export::explains::<E, P>(
                        leg.hands(old(fabric)@, event@),
                        leg.limit,
                        encoding,
                    ) && ({
                        let (reply, next, after) = leg.step(
                            old(fabric)@,
                            event@,
                            declared::<E, P>(),
                            E::SCHEMA_REVISION,
                            encoding,
                        );
                        &&& action@ == reply
                        &&& final(self)@.export == next
                        &&& match next {
                            Some(_) => final(self)@.import == old(self)@.import && final(fabric)@
                                == after,
                            None => final(self)@.import is None && final(fabric)@ == match old(
                                self,
                            )@.import {
                                Some(other) => other.ended(after),
                                None => after,
                            },
                        }
                    }),
            },
            old(self)@.export is Some && final(self)@.export is None ==> {
                &&& old(self)@.import matches Some(leg) ==> leg.ends(final(fabric)@.ledger)
                &&& old(self)@.export matches Some(leg) ==> leg.ends(final(fabric)@.ledger)
            },
    {
        let ghost before = *fabric;
        let ghost was = self@;
        match self.export.take() {
            None => LinkAction::Done(Ok(())),
            Some(export) => {
                let mut export = export;
                if !export.is_running() {
                    self.export = Some(export);
                    return LinkAction::Done(Ok(()));
                }
                proof {
                    export.lemma_holds(before);
                    if self.import is Some {
                        self.import->0.lemma_holds(before);
                    }
                }
                let action = export.step(fabric, event);
                proof {
                    if self.import is Some {
                        self.import->0.lemma_still_valid(before, *fabric);
                    }
                }
                if export.is_running() {
                    proof {
                        if was.import is Some {
                            lemma_apart(
                                was.export->0,
                                was.import->0,
                                export@->0,
                                was.import->0,
                                before@,
                                fabric@,
                            );
                        }
                    }
                    self.export = Some(export);
                } else {
                    match self.import.take() {
                        Some(import) => import.cancel(fabric),
                        None => {},
                    }
                }
                action
            },
        }
    }

    /// The bytes of a credit that are still to write.
    pub fn outgoing_credit<'a, P: Carries<E::Payload>>(
        &'a self,
        fabric: &DynamicFabric<P>,
    ) -> (bytes: &'a [u8])
        requires
            self.valid(fabric),
        ensures
            bytes@ == match self@.import {
                Some(leg) => leg.outgoing(),
                None => Seq::empty(),
            },
    {
        match &self.import {
            Some(import) => import.outgoing(fabric),
            None => {
                let none: &'a [u8] = &[];
                assert(none@ =~= Seq::empty());
                none
            },
        }
    }

    /// The bytes of a frame to write next.
    pub fn outgoing_frame<'a, P: Carries<E::Payload>>(
        &'a self,
        fabric: &DynamicFabric<P>,
    ) -> (bytes: &'a [u8])
        requires
            self.valid(fabric),
        ensures
            bytes@ == match self@.export {
                Some(leg) => leg.outgoing(),
                None => Seq::empty(),
            },
    {
        match &self.export {
            Some(export) => export.outgoing(fabric),
            None => {
                let none: &'a [u8] = &[];
                assert(none@ =~= Seq::empty());
                none
            },
        }
    }

    /// Tests whether a change of the local stream lets a leg go on. A link that does not
    /// wait for its stream goes on only when a socket does, or with a revocation.
    pub fn awaits_stream(&self) -> (waiting: bool)
        ensures
            waiting == ((self@.import matches Some(leg) && leg.stage is Sending) || (
            self@.export matches Some(leg) && leg.stage is Receiving)),
    {
        let import = match &self.import {
            Some(import) => import.awaits_stream(),
            None => false,
        };
        let export = match &self.export {
            Some(export) => export.awaits_stream(),
            None => false,
        };
        import || export
    }

    /// Ends the link before it is done.
    pub fn cancel<P: Carries<E::Payload>>(self, fabric: &mut DynamicFabric<P>)
        requires
            old(fabric).wf(),
            self.valid(old(fabric)),
        ensures
            final(fabric).wf(),
            final(fabric).root() == old(fabric).root(),
            ({
                let first = match self@.import {
                    Some(leg) => leg.ended(old(fabric)@),
                    None => old(fabric)@,
                };
                final(fabric)@ == match self@.export {
                    Some(leg) => leg.ended(first),
                    None => first,
                }
            }),
            self@.import matches Some(leg) ==> leg.ends(final(fabric)@.ledger),
            self@.export matches Some(leg) ==> leg.ends(final(fabric)@.ledger),
    {
        let ghost before = *fabric;
        let UnixLink { export, import } = self;
        proof {
            if export is Some {
                export->0.lemma_holds(before);
            }
        }
        match import {
            Some(import) => {
                proof {
                    import.lemma_holds(before);
                }
                import.cancel(fabric);
            },
            None => {},
        }
        match export {
            Some(export) => {
                proof {
                    export.lemma_still_valid(before, *fabric);
                }
                export.cancel(fabric)
            },
            None => {},
        }
    }
}

/// Legs stay apart: what one of them holds anew, the other does not hold.
proof fn lemma_apart<T, P>(
    export: ExportView,
    import: ImportView<T>,
    next_export: ExportView,
    next_import: ImportView<T>,
    before: FabricView<P>,
    after: FabricView<P>,
)
    requires
        apart(export, import, before),
        export.node < before.ledger.nodes.len(),
        forall|t: nat| #[trigger] export.owns(t) ==> lasting(before.ledger, t),
        forall|t: nat| #[trigger] import.owns(t) ==> lasting(before.ledger, t),
        next_export == export && import.renews(next_import, before.ledger) || next_import == import
            && export.renews(next_export, before.ledger),
        settled(before.ledger, after.ledger, export.node, 0),
    ensures
        apart(next_export, next_import, after),
{
    assert forall|t: nat| #[trigger] next_export.owns(t) implies !next_import.owns(t) by {
        if next_export == export {
            assert(export.owns(t));
            assert(lasting(before.ledger, t));
        } else if next_import.owns(t) {
            assert(import.owns(t));
            assert(lasting(before.ledger, t));
        }
    }
}

proof fn lemma_fewer(a: LedgerView, b: LedgerView, c: LedgerView)
    requires
        b.table == a.table,
        fewer(b, c),
    ensures
        fewer(a, c),
{
    assert forall|t: nat| #[trigger] c.outstanding(t) implies a.outstanding(t) && c.record(t)
        == a.record(t) by {
        assert(b.outstanding(t));
    }
}

/// A relay whose second leg was not bound leaves nothing behind.
proof fn lemma_joined<P>(
    v: FabricView<P>,
    doubled: FabricView<P>,
    open: FabricView<P>,
    bound: FabricView<P>,
    after: FabricView<P>,
    export: ExportView,
)
    requires
        doubled.ledger.table == v.ledger.table,
        forall|t: nat|
            t != export.lease && t != export.ticket && #[trigger] open.ledger.outstanding(t)
                ==> doubled.ledger.outstanding(t) && open.ledger.record(t)
                == doubled.ledger.record(t),
        fewer(open.ledger, bound.ledger),
        export.gone(bound.ledger, after.ledger),
    ensures
        fewer(v.ledger, after.ledger),
{
    assert forall|t: nat| #[trigger] after.ledger.outstanding(t) implies v.ledger.outstanding(t)
        && after.ledger.record(t) == v.ledger.record(t) by {
        assert(bound.ledger.outstanding(t));
        assert(open.ledger.outstanding(t));
        assert(t != export.lease && t != export.ticket);
        assert(doubled.ledger.outstanding(t));
    }
}

/// How a relay ends: with the failure of either leg, the importing one first, or once
/// both legs are done.
pub open spec fn relay_outcome(
    import: Option<Option<IpcFault>>,
    export: Option<Option<IpcFault>>,
) -> Option<Option<IpcFault>> {
    match (import, export) {
        (Some(Some(fault)), _) => Some(Some(fault)),
        (_, Some(Some(fault))) => Some(Some(fault)),
        (Some(None), Some(None)) => Some(None),
        _ => None,
    }
}

/// What the end of a leg says, if it has ended; `None` inside stands for an end without a
/// failure.
pub open spec fn leg_end(end: Option<Result<(), IpcError>>) -> Option<Option<IpcFault>> {
    match end {
        Some(Ok(_)) => Some(None),
        Some(Err(error)) => Some(Some(error@)),
        None => None,
    }
}

/// Tells how a relay ends, if it does: a leg that fails ends both, and else both have to be
/// done.
pub fn relay_end(
    import: Option<Result<(), IpcError>>,
    export: Option<Result<(), IpcError>>,
) -> (end: Option<Result<(), IpcError>>)
    ensures
        leg_end(end) == relay_outcome(leg_end(import), leg_end(export)),
        import matches Some(Err(error)) ==> end == Some(Err::<(), IpcError>(error)),
{
    match (import, export) {
        (Some(Err(error)), _) => Some(Err(error)),
        (_, Some(Err(error))) => Some(Err(error)),
        (Some(Ok(_)), Some(Ok(_))) => Some(Ok(())),
        _ => None,
    }
}

/// What a grant has in use without the charges of one of its links.
pub open spec fn used_besides(ledger: LedgerView, node: nat, lease: nat, k: int) -> nat {
    tally(ledger.table.update(lease as int, None), on_grant(node, k))
}

/// Nothing of resource `k` is charged to the grant but what these two charges hold.
pub open spec fn else_unused(ledger: LedgerView, node: nat, k: int, one: nat, other: nat) -> bool {
    forall|t: nat| #[trigger]
        ledger.outstanding(t) && t != one && t != other && ledger.record(t).node == node
            ==> ledger.record(t).usage.get(k) == 0
}

pub proof fn lemma_else_unused(ledger: LedgerView, node: nat, k: int, one: nat, other: nat)
    requires
        one < ledger.table.len(),
        other < ledger.table.len(),
        else_unused(ledger, node, k, one, other),
    ensures
        tally(
            ledger.table.update(one as int, None).update(other as int, None),
            on_grant(node, k),
        ) == 0,
{
    let table = ledger.table.update(one as int, None).update(other as int, None);
    assert forall|t: int| 0 <= t < table.len() implies weight(
        #[trigger] table[t],
        on_grant(node, k),
    ) == 0 by {
        if table[t] is Some {
            assert(ledger.outstanding(t as nat));
        }
    }
    lemma_tally_zero(table, on_grant(node, k));
}

/// For as long as an importing link runs, its grant has in use what the link takes, two
/// connections and the bytes of a frame and two credits among it, and what others have
/// charged. A link that has not ended in [`UnixImport::step`] is valid and so runs on under
/// this law; one that has ended has nothing charged.
pub proof fn law_import_usage<E: WireCodec, P: Carries<E::Payload>>(
    link: UnixImport<E>,
    fabric: DynamicFabric<P>,
    k: int,
)
    requires
        fabric.wf(),
        link.valid(&fabric),
        link@ is Some,
        0 <= k < RESOURCES,
    ensures
        fabric@.ledger.nodes[link@->0.node as int].used(k) == link_allowance(
            link@->0.limit,
        ).get(k) + used_besides(fabric@.ledger, link@->0.node, link@->0.lease, k),
        else_unused(fabric@.ledger, link@->0.node, k, link@->0.lease, link@->0.lease)
            ==> fabric@.ledger.nodes[link@->0.node as int].used(k) == link_allowance(
            link@->0.limit,
        ).get(k),
        link_allowance(link@->0.limit).connections == 2,
        link_allowance(link@->0.limit).bytes == link@->0.limit + HEADER_BYTES + 2 * CREDIT_BYTES,
{
    let ledger = fabric@.ledger;
    let view = link@->0;
    link.lemma_holds(fabric);
    assert(view.owns(view.lease));
    assert(lasting(ledger, view.lease));
    law_usage_is_outstanding(ledger, view.node, k);
    lemma_tally_update(ledger.table, view.lease as int, None, on_grant(view.node, k));
    if else_unused(ledger, view.node, k, view.lease, view.lease) {
        lemma_else_unused(ledger, view.node, k, view.lease, view.lease);
        let first = ledger.table.update(view.lease as int, None);
        assert(first.update(view.lease as int, None) =~= first);
    }
}

/// Once the charge of a link is given back, its grant has in use only what others have
/// charged, and nothing where nobody else has.
pub proof fn law_ended_usage(ledger: LedgerView, node: nat, lease: nat, k: int)
    requires
        ledger.wf(),
        node < ledger.nodes.len(),
        lease < ledger.table.len(),
        !ledger.outstanding(lease),
        0 <= k < RESOURCES,
    ensures
        ledger.nodes[node as int].used(k) == used_besides(ledger, node, lease, k),
        else_unused(ledger, node, k, lease, lease) ==> ledger.nodes[node as int].used(k) == 0,
{
    law_usage_is_outstanding(ledger, node, k);
    let first = ledger.table.update(lease as int, None);
    assert(first =~= ledger.table);
    if else_unused(ledger, node, k, lease, lease) {
        lemma_else_unused(ledger, node, k, lease, lease);
        assert(first.update(lease as int, None) =~= first);
    }
}

/// For as long as an exporting link runs, its grant has in use what the link takes, one
/// subscription, and what others have charged. A link that has not ended in
/// [`UnixExport::step`] is valid and so runs on under this law; one that has ended has
/// nothing charged.
pub proof fn law_export_usage<E: WireCodec, P: Carries<E::Payload>>(
    link: UnixExport<E>,
    fabric: DynamicFabric<P>,
    k: int,
)
    requires
        fabric.wf(),
        link.valid(&fabric),
        link@ is Some,
        0 <= k < RESOURCES,
    ensures
        fabric@.ledger.nodes[link@->0.node as int].used(k) == link_allowance(
            link@->0.limit,
        ).get(k) + one_subscription().widened().get(k) + tally(
            fabric@.ledger.table.update(link@->0.lease as int, None).update(
                link@->0.ticket as int,
                None,
            ),
            on_grant(link@->0.node, k),
        ),
        else_unused(fabric@.ledger, link@->0.node, k, link@->0.lease, link@->0.ticket)
            ==> fabric@.ledger.nodes[link@->0.node as int].used(k) == link_allowance(
            link@->0.limit,
        ).get(k) + one_subscription().widened().get(k),
        link_allowance(link@->0.limit).connections == 2,
        link_allowance(link@->0.limit).bytes == link@->0.limit + HEADER_BYTES + 2 * CREDIT_BYTES,
        one_subscription().widened() == (Limits { subscriptions: 1, ..Limits::none() }),
{
    let ledger = fabric@.ledger;
    let view = link@->0;
    link.lemma_holds(fabric);
    assert(view.owns(view.lease));
    assert(view.owns(view.ticket));
    assert(lasting(ledger, view.lease));
    assert(lasting(ledger, view.ticket));
    law_usage_is_outstanding(ledger, view.node, k);
    let first = ledger.table.update(view.lease as int, None);
    lemma_tally_update(ledger.table, view.lease as int, None, on_grant(view.node, k));
    assert(first[view.ticket as int] == ledger.table[view.ticket as int]);
    lemma_tally_update(first, view.ticket as int, None, on_grant(view.node, k));
    if else_unused(ledger, view.node, k, view.lease, view.ticket) {
        lemma_else_unused(ledger, view.node, k, view.lease, view.ticket);
    }
}

/// A frame that one end puts on the wire is what the other end reads: its header is
/// accepted, its payload is what was encoded, and the credit for it is the one that the
/// first end waits for.
pub proof fn law_link_transfer<T, P: Carries<T>>(
    export: ExportView,
    import: ImportView<T>,
    source: FabricView<P>,
    target: FabricView<P>,
    sequence: u64,
    declaration: Declaration,
    revision: u32,
    encoding: Encoding,
    decoded: Result<T, WireError>,
)
    requires
        encoding.length <= export.limit,
        encoding.length <= import.limit,
        encoding.length <= u32::MAX,
        encoding.length > 0,
        encoding.bytes.len() == encoding.length,
        encoding.result == Ok::<usize, WireError>(encoding.length),
        import.stage == ImportStage::<T>::Header(Seq::empty()),
        import.follows(sequence),
    ensures
        ({
            let (reply, next, _) = export.framed(
                source,
                sequence,
                declaration,
                revision,
                encoding,
            );
            let sent = next->0;
            let header = sent.stage->Writing_0;
            let (got, mid, a) = import.step(
                target,
                ImportInput::DataRead(header),
                declaration,
                decoded,
            );
            let reading = mid->0;
            let payload = ImportInput::DataRead(sent.stage->Writing_1);
            let whole = reading.completes(payload, declaration);
            &&& reply == LinkReply::Write
            &&& next is Some
            &&& sent.outgoing() == header
            &&& got == LinkReply::Read(encoding.length as nat)
            &&& mid is Some
            &&& a == target
            &&& whole == Some((encoding.bytes, SchemaRevision(revision)))
            &&& reading.step(target, payload, declaration, decoded) == reading.decoded(
                target,
                sequence,
                decoded,
            )
            &&& sent.accepts(credit_bytes(sequence))
            &&& forall|other: u64| #[trigger]
                sent.accepts(credit_bytes(other)) ==> other == sequence
        }),
{
    let length = encoding.length as nat;
    let header = header_bytes(
        declaration.event,
        declaration.wire_major,
        revision,
        sequence,
        length,
    );
    law_link_header(
        declaration.event,
        declaration.wire_major,
        revision,
        sequence,
        length,
        import.limit,
    );
    assert(Seq::<u8>::empty() + header =~= header);
    assert(header.subrange(0, header.len() as int) =~= header);
    assert(Seq::<u8>::empty() + encoding.bytes =~= encoding.bytes);
    law_credit(sequence, sequence);
    let sent = export.framed(source, sequence, declaration, revision, encoding).1->0;
    assert forall|other: u64| #[trigger] sent.accepts(credit_bytes(other)) implies other
        == sequence by {
        law_credit(other, sequence);
    }
}

/// While a frame awaits its credit, no publication is taken from the stream; whatever
/// else than its credit comes ends the link.
pub proof fn law_one_frame_in_flight<P>(
    link: ExportView,
    v: FabricView<P>,
    credit: Seq<u8>,
    declaration: Declaration,
    revision: u32,
    encoding: Encoding,
)
    requires
        link.outstanding,
        link.stage is Ready,
        link.control.len() == 0,
        credit.len() == CREDIT_BYTES,
    ensures
        link.hands(v, ExportInput::ControlPending) is None,
        link.step(v, ExportInput::ControlPending, declaration, revision, encoding) == link.idle(v),
        !link.accepts(credit) ==> link.step(
            v,
            ExportInput::ControlRead(credit),
            declaration,
            revision,
            encoding,
        ) == link.fail(v, IpcFault::Protocol),
        !(ExportView { outstanding: false, ..link }).accepts(credit),
{
    assert(link.control + credit =~= credit);
}

/// A credit that nothing asked for ends the link.
pub proof fn law_unsolicited_credit<P>(
    link: ExportView,
    v: FabricView<P>,
    credit: Seq<u8>,
    declaration: Declaration,
    revision: u32,
    encoding: Encoding,
)
    requires
        !link.outstanding,
        link.control.len() == 0,
        credit.len() == CREDIT_BYTES,
    ensures
        link.step(v, ExportInput::ControlRead(credit), declaration, revision, encoding)
            == link.fail(v, IpcFault::Protocol),
{
    assert(link.control + credit =~= credit);
}

/// Whatever an importing link waits for, its control socket ends it: the peer sends
/// nothing there, and closes it only to end the link. An exporting link ends when its
/// control socket is closed.
pub proof fn law_control_ends_links<T, P: Carries<T>>(
    import: ImportView<T>,
    export: ExportView,
    v: FabricView<P>,
    count: nat,
    declaration: Declaration,
    revision: u32,
    decoded: Result<T, WireError>,
    encoding: Encoding,
)
    ensures
        import.step(v, ImportInput::ControlRead(count), declaration, decoded) == import.fail(
            v,
            if count == 0 {
                control_closed()
            } else {
                IpcFault::Protocol
            },
        ),
        export.step(
            v,
            ExportInput::ControlRead(Seq::empty()),
            declaration,
            revision,
            encoding,
        ) == export.fail(v, early_end()),
{
}

/// A header that is not the link's own, that announces too much, or that is out of
/// sequence ends an importing link at once, before any of its payload is read and
/// without a publication.
pub proof fn law_bad_header_ends_import<T, P: Carries<T>>(
    link: ImportView<T>,
    v: FabricView<P>,
    bytes: Seq<u8>,
    data: Seq<u8>,
    declaration: Declaration,
    decoded: Result<T, WireError>,
)
    requires
        link.stage == ImportStage::<T>::Header(bytes),
        data.len() > 0,
        bytes.len() + data.len() == HEADER_BYTES,
    ensures
        ({
            let fault = header_fault(
                bytes + data,
                declaration.event,
                declaration.wire_major,
                link.limit,
            );
            let step = link.step(v, ImportInput::DataRead(data), declaration, decoded);
            &&& fault is Some ==> step == (
                LinkReply::Done(fault),
                None::<ImportView<T>>,
                link.ended(v),
            )
            &&& fault is None && !link.follows(header_sequence(bytes + data)) ==> step == link.fail(
                v,
                IpcFault::Protocol,
            )
        }),
{
}

/// A polled link whose grant is revoked ends, whatever it was doing.
pub proof fn law_revoked_links<T, P: Carries<T>>(
    import: ImportView<T>,
    export: ExportView,
    v: FabricView<P>,
    declaration: Declaration,
    revision: u32,
    decoded: Result<T, WireError>,
    encoding: Encoding,
)
    requires
        v.ledger.nodes[import.node as int].revoked,
        v.ledger.nodes[export.node as int].revoked,
    ensures
        import.step(v, ImportInput::Polled, declaration, decoded) == import.fail(
            v,
            IpcFault::Revoked,
        ),
        export.step(v, ExportInput::Polled, declaration, revision, encoding) == export.fail(
            v,
            IpcFault::Revoked,
        ),
{
}

/// The stream has one more publication where the link turns to its credit, and else as
/// many as before.
pub open spec fn admits_once<T, P>(
    link: ImportView<T>,
    v: FabricView<P>,
    outcome: ImportOutcome<T, P>,
) -> bool {
    let (_, next, after) = outcome;
    let was = v.streams[link.stream as int].tail;
    let is = after.streams[link.stream as int].tail;
    match next {
        Some(now) => if now.stage is Credit {
            &&& is == was + 1
            &&& now.stage == ImportStage::<T>::Credit(now.previous->0, 0)
            &&& now.outgoing() == credit_bytes(now.previous->0)
        } else {
            is == was
        },
        None => is == was,
    }
}

/// A credit goes out only for a frame that has just been admitted, and a frame is
/// admitted once: the step that turns to the credit adds one publication to the stream,
/// and no other step adds any.
#[verifier::rlimit(60)]
#[verifier::spinoff_prover]
pub proof fn law_credit_means_admission<T, P: Carries<T>>(
    link: ImportView<T>,
    v: FabricView<P>,
    input: ImportInput,
    declaration: Declaration,
    decoded: Result<T, WireError>,
)
    requires
        v.wf(),
        link.stream < v.streams.len(),
        link.node < v.ledger.nodes.len(),
        !(link.stage is Credit),
        link.expects(input),
        link.stage matches ImportStage::Sending(_, _, ticket) ==> v.ledger.outstanding(ticket)
            && v.ledger.record(ticket).owner == Owner::Waiter(link.stream),
    ensures
        admits_once(link, v, link.step(v, input, declaration, decoded)),
{
    match input {
        ImportInput::ControlPending => match link.stage {
            ImportStage::Sending(sequence, value, ticket) => {
                lemma_send_again_tail(v, link.stream, link.node, P::carried(value), ticket);
                let (verdict, after) = v.send_again(
                    link.stream,
                    link.node,
                    P::carried(value),
                    ticket,
                );
                lemma_attempted(link, link, v, after, sequence, value, verdict);
            },
            _ => {},
        },
        ImportInput::DataRead(data) => {
            lemma_ended_tail(link, v);
            match link.stage {
                ImportStage::Header(bytes) => {
                    let cleared = link.at(ImportStage::Header(Seq::empty()));
                    lemma_ended_tail(cleared, v);
                    lemma_decoded(link, cleared, v, header_sequence(bytes + data), decoded);
                },
                ImportStage::Payload(sequence, _, _, _) => {
                    lemma_decoded(link, link, v, sequence, decoded);
                },
                _ => {},
            }
        },
        _ => lemma_ended_tail(link, v),
    }
}

/// The end of a link leaves the length of its stream.
proof fn lemma_ended_tail<T, P>(link: ImportView<T>, v: FabricView<P>)
    requires
        link.stream < v.streams.len(),
    ensures
        link.ended(v).streams[link.stream as int].tail == v.streams[link.stream as int].tail,
{
}

proof fn lemma_attempted<T, P>(
    link: ImportView<T>,
    at: ImportView<T>,
    v: FabricView<P>,
    after: FabricView<P>,
    sequence: u64,
    value: T,
    verdict: SendVerdict<P>,
)
    requires
        at.stream == link.stream,
        after.streams[link.stream as int].tail == v.streams[link.stream as int].tail
            + if verdict is Sent {
            1int
        } else {
            0int
        },
    ensures
        admits_once(link, v, at.attempted(after, sequence, value, verdict)),
{
    law_credit(sequence, sequence);
    assert(credit_bytes(sequence).subrange(0, CREDIT_BYTES as int) =~= credit_bytes(sequence));
}

proof fn lemma_decoded<T, P: Carries<T>>(
    link: ImportView<T>,
    at: ImportView<T>,
    v: FabricView<P>,
    sequence: u64,
    decoded: Result<T, WireError>,
)
    requires
        v.wf(),
        link.stream < v.streams.len(),
        link.node < v.ledger.nodes.len(),
        at.stream == link.stream,
        at.node == link.node,
    ensures
        admits_once(link, v, at.decoded(v, sequence, decoded)),
{
    if decoded is Ok {
        let value = decoded->Ok_0;
        lemma_send_first_tail(v, link.stream, link.node, P::carried(value));
        let (verdict, after) = v.send_first(link.stream, link.node, P::carried(value));
        lemma_attempted(link, at, v, after, sequence, value, verdict);
    }
}

/// A further attempt of a publication that waits adds one entry if it is sent, and else
/// none.
proof fn lemma_send_again_tail<P>(v: FabricView<P>, s: nat, node: nat, value: P, ticket: nat)
    requires
        v.wf(),
        s < v.streams.len(),
        node < v.ledger.nodes.len(),
    ensures
        ({
            let (verdict, after) = v.send_again(s, node, value, ticket);
            after.streams[s as int].tail == v.streams[s as int].tail + if verdict is Sent {
                1int
            } else {
                0int
            }
        }),
{
    law_send_now(v, s, node, value);
    assert(v.stream_sound(s));
    crate::fabric_laws::lemma_send_now_keeps(v, s, node, value, v.streams[s as int].storage);
}

/// A publication that may wait adds one entry if it is sent, and else none.
proof fn lemma_send_first_tail<P>(v: FabricView<P>, s: nat, node: nat, value: P)
    requires
        v.wf(),
        s < v.streams.len(),
        node < v.ledger.nodes.len(),
    ensures
        ({
            let (verdict, after) = v.send_first(s, node, value);
            after.streams[s as int].tail == v.streams[s as int].tail + if verdict is Sent {
                1int
            } else {
                0int
            }
        }),
{
    let st = v.streams[s as int];
    law_send_now(v, s, node, value);
    assert(v.stream_sound(s));
    crate::fabric_laws::lemma_send_now_keeps(v, s, node, value, st.storage);
    let (refused, after) = v.send_now(s, node, value);
    if refused is Some && refused->0.transient() {
        let (error, waiting) = after.wait(s, node);
        if error is None {
            crate::fabric_laws::lemma_wait_wf(after, s, node);
            lemma_send_again_tail(waiting, s, node, value, after.ledger.table.len());
        }
    }
}

} // verus!
