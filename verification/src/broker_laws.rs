//! Laws of routing.
use crate::broker::{lemma_without, without, BrokerError, BrokerView, ClientId, RouteKey};
use crate::event::EventId;
use crate::metadata::{EventMetadata, OriginId, WireEnvelope, WireMajor};
use vstd::arithmetic::div_mod::{
    lemma_fundamental_div_mod, lemma_fundamental_div_mod_converse, lemma_small_mod,
};
use vstd::prelude::*;

verus! {

/// An event that was routed is not routed again, nor is an earlier one of its origin.
pub proof fn law_route_once(v: BrokerView, metadata: EventMetadata, later: EventMetadata)
    requires
        v.refuses(metadata) is None,
        later.origin == metadata.origin,
        later.sequence <= metadata.sequence,
    ensures
        v.routed(metadata).repeated(later),
        v.routed(metadata).routed(later) == v.routed(metadata),
{
}

/// A later event of a known origin is routed, and gets the next commit number.
pub proof fn law_route_later(v: BrokerView, metadata: EventMetadata)
    requires
        v.seen.contains_key(metadata.origin),
        v.seen[metadata.origin] < metadata.sequence,
        metadata.may_hop(),
    ensures
        v.refuses(metadata) is None,
        !v.repeated(metadata),
        v.routed(metadata).commits == v.next_commit(),
        v.stamped(metadata).fabric_sequence == Some(v.next_commit()),
        v.stamped(metadata).origin == metadata.origin,
        v.stamped(metadata).sequence == metadata.sequence,
{
}

/// The table of origins stays within its bound, and an envelope that is refused changes
/// nothing.
pub proof fn law_origins_bounded(v: BrokerView, metadata: EventMetadata)
    requires
        v.wf(),
    ensures
        v.routed(metadata).wf(),
        v.routed(metadata).seen.len() <= v.capacity,
        v.refuses(metadata) is Some ==> v.routed(metadata) == v,
{
    let after = v.routed(metadata);
    if after.seen != v.seen {
        assert(after.seen.dom() =~= v.seen.dom().insert(metadata.origin));
    }
}

/// Every hop takes one from a finite time to live, and the last one ends it.
pub proof fn law_hops(metadata: EventMetadata)
    ensures
        metadata.ttl is None ==> metadata.may_hop() && metadata.hopped() == metadata,
        metadata.ttl matches Some(left) && left > 0 ==> metadata.may_hop()
            && metadata.hopped().ttl == Some((metadata.ttl->0 - 1) as u32),
        metadata.ttl == Some(0u32) ==> !metadata.may_hop(),
{
}

/// A forgotten origin starts anew.
pub proof fn law_forgotten_origin(v: BrokerView, metadata: EventMetadata)
    requires
        v.wf(),
        v.seen.contains_key(metadata.origin),
        metadata.may_hop(),
    ensures
        ({
            let after = BrokerView { seen: v.seen.remove(metadata.origin), ..v };
            after.refuses(metadata) is None && !after.repeated(metadata)
        }),
{
    let after = BrokerView { seen: v.seen.remove(metadata.origin), ..v };
    assert(after.seen.dom() =~= v.seen.dom().remove(metadata.origin));
}

/// An interest that is declared and taken back leaves the routes as they were.
pub proof fn law_subscribe_unsubscribe(v: BrokerView, route: RouteKey, client: ClientId)
    requires
        v.wf(),
        !v.clients(route).contains(client),
    ensures
        v.subscribe(route, client).clients(route) == v.clients(route).push(client),
        v.subscribe(route, client).unsubscribe(route, client) == v,
        v.subscribe(route, client).subscribe(route, client) == v.subscribe(route, client),
{
    let clients = v.clients(route);
    let longer = clients.push(client);
    lemma_without(clients, client);
    assert(longer.drop_last() =~= clients);
    assert(without(longer, client) == clients);
    assert(longer[clients.len() as int] == client);
    assert(longer.contains(client));
    let added = v.subscribe(route, client);
    let back = added.unsubscribe(route, client);
    if v.routes.contains_key(route) {
        assert(back.routes =~= v.routes);
    } else {
        assert(clients =~= Seq::empty());
        assert(back.routes =~= v.routes);
    }
}

/// A client that is removed is in no route, and nobody else loses an interest.
pub proof fn law_remove_client(v: BrokerView, client: ClientId, other: ClientId, route: RouteKey)
    requires
        v.wf(),
    ensures
        !v.remove_client(client).clients(route).contains(client),
        other != client ==> v.remove_client(client).clients(route).contains(other) == v.clients(
            route,
        ).contains(other),
        v.remove_client(client).wf(),
{
    let after = v.remove_client(client);
    lemma_without(v.clients(route), client);
    if v.routes.contains_key(route) && !after.routes.contains_key(route) {
        assert(without(v.routes[route], client).len() == 0);
        assert(!without(v.routes[route], client).contains(other));
    }
    assert forall|r: RouteKey| #[trigger] after.routes.contains_key(r) implies
        after.routes[r].len() > 0 && after.routes[r].no_duplicates() by {
        lemma_without(v.routes[r], client);
        assert(v.routes.contains_key(r));
    }
}

/// One call that may change a broker.
pub enum BrokerCall {
    /// One more interest of a client.
    Subscribe(RouteKey, ClientId),
    /// One interest less.
    Unsubscribe(RouteKey, ClientId),
    /// A client is gone.
    RemoveClient(ClientId),
    /// An envelope with this metadata comes.
    Route(EventMetadata),
    /// A producer is gone.
    ForgetOrigin(OriginId),
}

/// A broker after one call.
pub open spec fn called(v: BrokerView, call: BrokerCall) -> BrokerView {
    match call {
        BrokerCall::Subscribe(route, client) => v.subscribe(route, client),
        BrokerCall::Unsubscribe(route, client) => v.unsubscribe(route, client),
        BrokerCall::RemoveClient(client) => v.remove_client(client),
        BrokerCall::Route(metadata) => v.routed(metadata),
        BrokerCall::ForgetOrigin(origin) => BrokerView { seen: v.seen.remove(origin), ..v },
    }
}

/// A broker after a sequence of calls.
pub open spec fn run(v: BrokerView, calls: Seq<BrokerCall>) -> BrokerView
    decreases calls.len(),
{
    if calls.len() == 0 {
        v
    } else {
        called(run(v, calls.drop_last()), calls.last())
    }
}

/// The call takes an interest back.
pub open spec fn ends_interest(call: BrokerCall, route: RouteKey, client: ClientId) -> bool {
    call == BrokerCall::Unsubscribe(route, client) || call == BrokerCall::RemoveClient(client)
}

/// The client declared the interest in call `i` and has not taken it back since.
pub open spec fn interested_since(
    calls: Seq<BrokerCall>,
    i: int,
    route: RouteKey,
    client: ClientId,
) -> bool {
    &&& 0 <= i < calls.len()
    &&& calls[i] == BrokerCall::Subscribe(route, client)
    &&& forall|j: int| i < j < calls.len() ==> !ends_interest(#[trigger] calls[j], route, client)
}

/// Call `i` is an envelope that the broker admits and commits.
pub open spec fn commits_at(v: BrokerView, calls: Seq<BrokerCall>, i: int) -> bool {
    let before = run(v, calls.subrange(0, i));
    &&& 0 <= i < calls.len()
    &&& calls[i] matches BrokerCall::Route(metadata)
    &&& before.refuses(metadata) is None
    &&& !before.repeated(metadata)
}

/// Call `i` commits an envelope of the origin, which is not forgotten since.
pub open spec fn committed_since(
    v: BrokerView,
    calls: Seq<BrokerCall>,
    i: int,
    origin: OriginId,
) -> bool {
    &&& commits_at(v, calls, i)
    &&& calls[i]->Route_0.origin == origin
    &&& forall|j: int|
        i < j < calls.len() ==> (#[trigger] calls[j]) != BrokerCall::ForgetOrigin(origin)
}

/// How many of the calls commit an envelope.
pub open spec fn commit_count(v: BrokerView, calls: Seq<BrokerCall>) -> nat
    decreases calls.len(),
{
    if calls.len() == 0 {
        0
    } else {
        commit_count(v, calls.drop_last()) + if commits_at(v, calls, calls.len() - 1) {
            1nat
        } else {
            0nat
        }
    }
}

/// The size of the commit counter.
pub open spec fn commit_numbers() -> int {
    u64::MAX + 1
}

/// What a call says of a broker stays said of it with more calls before or after.
proof fn lemma_prefix(v: BrokerView, calls: Seq<BrokerCall>, i: int)
    requires
        0 <= i < calls.len() - 1,
    ensures
        commits_at(v, calls, i) == commits_at(v, calls.drop_last(), i),
{
    assert(calls.subrange(0, i) =~= calls.drop_last().subrange(0, i));
}

/// Whatever calls come, a broker stays in order: no origin is remembered beyond the bound,
/// no client stands twice in a route, and no route is empty.
pub proof fn law_calls_keep_order(v: BrokerView, calls: Seq<BrokerCall>)
    requires
        v.wf(),
    ensures
        run(v, calls).wf(),
        run(v, calls).capacity == v.capacity,
        run(v, calls).seen.len() <= v.capacity,
    decreases calls.len(),
{
    if calls.len() > 0 {
        let before = run(v, calls.drop_last());
        law_calls_keep_order(v, calls.drop_last());
        let after = called(before, calls.last());
        match calls.last() {
            BrokerCall::Subscribe(route, client) => {
                if !before.clients(route).contains(client) {
                    let longer = before.clients(route).push(client);
                    assert forall|i: int, j: int|
                        0 <= i < longer.len() && 0 <= j < longer.len() && i != j implies longer[i]
                        != longer[j] by {
                        if i < longer.len() - 1 && j == longer.len() - 1 {
                            assert(before.clients(route).contains(longer[i]));
                        }
                        if j < longer.len() - 1 && i == longer.len() - 1 {
                            assert(before.clients(route).contains(longer[j]));
                        }
                    }
                }
            },
            BrokerCall::Unsubscribe(route, client) => {
                lemma_without(before.clients(route), client);
            },
            BrokerCall::RemoveClient(client) => {
                let route = RouteKey { event: EventId(0), wire_major: WireMajor(0) };
                law_remove_client(before, client, client, route);
            },
            BrokerCall::Route(metadata) => {
                law_origins_bounded(before, metadata);
            },
            BrokerCall::ForgetOrigin(origin) => {
                if before.seen.contains_key(origin) {
                    assert(after.seen.dom() =~= before.seen.dom().remove(origin));
                } else {
                    assert(after.seen =~= before.seen);
                }
            },
        }
    }
}

/// Over any calls to a broker without routes, a client is in a route exactly if it declared
/// the interest and has not taken it back or been removed since.
pub proof fn law_interest(
    v: BrokerView,
    calls: Seq<BrokerCall>,
    route: RouteKey,
    client: ClientId,
)
    requires
        v.wf(),
        v.routes == Map::<RouteKey, Seq<ClientId>>::empty(),
    ensures
        run(v, calls).clients(route).contains(client) <==> exists|i: int|
            interested_since(calls, i, route, client),
    decreases calls.len(),
{
    if calls.len() > 0 {
        let rest = calls.drop_last();
        let before = run(v, rest);
        let last = calls.len() - 1;
        let call = calls.last();
        let after = called(before, call);
        law_interest(v, rest, route, client);
        law_calls_keep_order(v, rest);
        assert forall|i: int| 0 <= i < last implies (#[trigger] interested_since(
            calls,
            i,
            route,
            client,
        ) <==> interested_since(rest, i, route, client) && !ends_interest(call, route, client)) by {
            if interested_since(calls, i, route, client) {
                assert(calls[i] == rest[i]);
                assert(!ends_interest(calls[last], route, client));
                assert forall|j: int| i < j < rest.len() implies !ends_interest(
                    #[trigger] rest[j],
                    route,
                    client,
                ) by {
                    assert(!ends_interest(calls[j], route, client));
                }
            }
            if interested_since(rest, i, route, client) && !ends_interest(call, route, client) {
                assert forall|j: int| i < j < calls.len() implies !ends_interest(
                    #[trigger] calls[j],
                    route,
                    client,
                ) by {
                    if j < last {
                        assert(!ends_interest(rest[j], route, client));
                    }
                }
            }
        }
        lemma_call_interest(before, call, route, client);
        if after.clients(route).contains(client) {
            if call == BrokerCall::Subscribe(route, client) {
                assert(interested_since(calls, last, route, client));
            } else {
                let i = choose|i: int| interested_since(rest, i, route, client);
                assert(interested_since(calls, i, route, client));
            }
        }
        if exists|i: int| interested_since(calls, i, route, client) {
            let i = choose|i: int| interested_since(calls, i, route, client);
            if i < last {
                assert(interested_since(rest, i, route, client));
            }
        }
    } else {
        assert(v.clients(route) =~= Seq::empty());
    }
}

/// What one call does to one interest.
proof fn lemma_call_interest(
    v: BrokerView,
    call: BrokerCall,
    route: RouteKey,
    client: ClientId,
)
    requires
        v.wf(),
    ensures
        called(v, call).clients(route).contains(client) == (call == BrokerCall::Subscribe(
            route,
            client,
        ) || v.clients(route).contains(client) && !ends_interest(call, route, client)),
{
    let clients = v.clients(route);
    match call {
        BrokerCall::Subscribe(r, c) => {
            if r == route && !clients.contains(c) {
                let longer = clients.push(c);
                assert(longer[clients.len() as int] == c);
                if clients.contains(client) {
                    let i = choose|i: int| 0 <= i < clients.len() && clients[i] == client;
                    assert(longer[i] == client);
                }
                if longer.contains(client) && client != c {
                    let i = choose|i: int| 0 <= i < longer.len() && longer[i] == client;
                    assert(clients[i] == client);
                }
            }
        },
        BrokerCall::Unsubscribe(r, c) => {
            lemma_without(clients, c);
            if r == route && without(clients, c).len() == 0 {
                assert(!without(clients, c).contains(client));
            }
        },
        BrokerCall::RemoveClient(c) => {
            law_remove_client(v, c, client, route);
        },
        _ => {},
    }
}

/// Over any calls to a broker that knows no origin, what it remembers of an origin is the
/// sequence of an envelope that it has committed and not forgotten since, and no such
/// envelope has a higher one.
pub proof fn law_origins_seen(v: BrokerView, calls: Seq<BrokerCall>, origin: OriginId)
    requires
        v.wf(),
        v.seen == Map::<OriginId, u64>::empty(),
    ensures
        ({
            let seen = run(v, calls).seen;
            &&& seen.contains_key(origin) <==> exists|i: int|
                committed_since(v, calls, i, origin)
            &&& seen.contains_key(origin) ==> exists|i: int|
                committed_since(v, calls, i, origin) && calls[i]->Route_0.sequence == seen[origin]
            &&& forall|i: int| #[trigger]
                committed_since(v, calls, i, origin) ==> calls[i]->Route_0.sequence
                    <= seen[origin]
        }),
    decreases calls.len(),
{
    if calls.len() > 0 {
        let rest = calls.drop_last();
        let last = calls.len() - 1;
        let call = calls.last();
        let before = run(v, rest);
        let seen = run(v, calls).seen;
        law_origins_seen(v, rest, origin);
        assert(calls.subrange(0, last) =~= rest);
        assert forall|i: int| 0 <= i < last implies (#[trigger] committed_since(
            v,
            calls,
            i,
            origin,
        ) <==> committed_since(v, rest, i, origin) && call != BrokerCall::ForgetOrigin(
            origin,
        )) by {
            lemma_prefix(v, calls, i);
            if committed_since(v, calls, i, origin) {
                assert(calls[last] != BrokerCall::ForgetOrigin(origin));
                assert forall|j: int| i < j < rest.len() implies (#[trigger] rest[j])
                    != BrokerCall::ForgetOrigin(origin) by {
                    assert(calls[j] != BrokerCall::ForgetOrigin(origin));
                }
            }
            if committed_since(v, rest, i, origin) && call != BrokerCall::ForgetOrigin(origin) {
                assert forall|j: int| i < j < calls.len() implies (#[trigger] calls[j])
                    != BrokerCall::ForgetOrigin(origin) by {
                    if j < last {
                        assert(rest[j] != BrokerCall::ForgetOrigin(origin));
                    }
                }
            }
        }
        assert(committed_since(v, calls, last, origin) <==> commits_at(v, calls, last)
            && call->Route_0.origin == origin);
        if committed_since(v, calls, last, origin) {
            assert(seen[origin] == call->Route_0.sequence);
            assert forall|i: int| #[trigger] committed_since(v, calls, i, origin) implies
                calls[i]->Route_0.sequence <= seen[origin] by {
                if i < last {
                    assert(committed_since(v, rest, i, origin));
                    assert(before.seen.contains_key(origin));
                }
            }
        } else if call != BrokerCall::ForgetOrigin(origin) {
            assert(seen.contains_key(origin) == before.seen.contains_key(origin));
            if seen.contains_key(origin) {
                assert(seen[origin] == before.seen[origin]);
                let i = choose|i: int|
                    committed_since(v, rest, i, origin) && rest[i]->Route_0.sequence
                        == before.seen[origin];
                assert(committed_since(v, calls, i, origin));
            }
            assert forall|i: int| #[trigger] committed_since(v, calls, i, origin) implies
                seen.contains_key(origin) && calls[i]->Route_0.sequence <= seen[origin] by {
                assert(i != last);
                assert(committed_since(v, rest, i, origin));
            }
        } else {
            assert forall|i: int| !#[trigger] committed_since(v, calls, i, origin) by {
                if 0 <= i < last {
                    assert(calls[last] == BrokerCall::ForgetOrigin(origin));
                }
            }
        }
    } else {
        assert forall|i: int| !#[trigger] committed_since(v, calls, i, origin) by {}
    }
}

/// Over any calls, an envelope that was committed is not routed again, nor is an earlier
/// one of its origin, until the origin is forgotten.
pub proof fn law_no_duplicates(
    v: BrokerView,
    calls: Seq<BrokerCall>,
    i: int,
    later: EventMetadata,
)
    requires
        v.wf(),
        v.seen == Map::<OriginId, u64>::empty(),
        committed_since(v, calls, i, later.origin),
        later.sequence <= calls[i]->Route_0.sequence,
    ensures
        run(v, calls).repeated(later),
        run(v, calls.push(BrokerCall::Route(later))) == run(v, calls),
{
    law_origins_seen(v, calls, later.origin);
    assert(calls.push(BrokerCall::Route(later)).drop_last() =~= calls);
}

/// Over any calls, commits are numbered one after the other, modulo the size of the
/// counter.
pub proof fn law_commit_numbers(v: BrokerView, calls: Seq<BrokerCall>, metadata: EventMetadata)
    ensures
        run(v, calls).commits == (v.commits + commit_count(v, calls)) % commit_numbers(),
        run(v, calls).stamped(metadata).fabric_sequence == Some(
            ((v.commits + commit_count(v, calls) + 1) % commit_numbers()) as u64,
        ),
    decreases calls.len(),
{
    if calls.len() > 0 {
        law_commit_numbers(v, calls.drop_last(), metadata);
        assert(calls.subrange(0, calls.len() - 1) =~= calls.drop_last());
    }
    let count = v.commits + commit_count(v, calls);
    lemma_next_number(count);
    if calls.len() > 0 {
        lemma_next_number(v.commits + commit_count(v, calls.drop_last()));
    } else {
        lemma_small_mod(v.commits as nat, commit_numbers() as nat);
    }
}

/// The number after the number of `count`.
proof fn lemma_next_number(count: int)
    ensures
        (count + 1) % commit_numbers() == if count % commit_numbers() == u64::MAX {
            0
        } else {
            count % commit_numbers() + 1
        },
        0 <= count % commit_numbers() <= u64::MAX,
{
    let n = commit_numbers();
    let q = count / n;
    let r = count % n;
    lemma_fundamental_div_mod(count, n);
    if r == u64::MAX {
        assert(count + 1 == (q + 1) * n + 0) by (nonlinear_arith)
            requires
                count == n * q + r,
                r + 1 == n,
        ;
        lemma_fundamental_div_mod_converse(count + 1, n, q + 1, 0);
    } else {
        assert(count + 1 == q * n + (r + 1)) by (nonlinear_arith)
            requires
                count == n * q + r,
        ;
        lemma_fundamental_div_mod_converse(count + 1, n, q, r + 1);
    }
}

/// Two commits have different numbers, unless the counter has gone round between them.
pub proof fn law_commit_numbers_differ(v: BrokerView, calls: Seq<BrokerCall>, i: int, j: int)
    requires
        0 <= i < j <= calls.len(),
        commits_at(v, calls, i),
        commit_count(v, calls.subrange(0, j)) - commit_count(v, calls.subrange(0, i))
            < commit_numbers(),
    ensures
        run(v, calls.subrange(0, i)).next_commit() != run(v, calls.subrange(0, j)).next_commit(),
{
    let first = calls.subrange(0, i);
    let second = calls.subrange(0, j);
    let metadata = calls[i]->Route_0;
    law_commit_numbers(v, first, metadata);
    law_commit_numbers(v, second, metadata);
    lemma_count_grows(v, calls, i, j);
    let a = v.commits + commit_count(v, first);
    let b = v.commits + commit_count(v, second);
    assert(0 < b - a < commit_numbers());
    if (a + 1) % commit_numbers() == (b + 1) % commit_numbers() {
        lemma_fundamental_div_mod(a + 1, commit_numbers());
        lemma_fundamental_div_mod(b + 1, commit_numbers());
        let q = (a + 1) / commit_numbers();
        let r = (b + 1) / commit_numbers();
        assert(b - a == commit_numbers() * (r - q)) by (nonlinear_arith)
            requires
                a + 1 == commit_numbers() * q + (a + 1) % commit_numbers(),
                b + 1 == commit_numbers() * r + (b + 1) % commit_numbers(),
                (a + 1) % commit_numbers() == (b + 1) % commit_numbers(),
        ;
        assert(r - q >= 1 || r - q <= 0);
        assert(false) by (nonlinear_arith)
            requires
                b - a == commit_numbers() * (r - q),
                0 < b - a < commit_numbers(),
                commit_numbers() > 0,
        ;
    }
}

/// A commit counts once for all that comes after it.
proof fn lemma_count_grows(v: BrokerView, calls: Seq<BrokerCall>, i: int, j: int)
    requires
        0 <= i < j <= calls.len(),
        commits_at(v, calls, i),
    ensures
        commit_count(v, calls.subrange(0, j)) > commit_count(v, calls.subrange(0, i)),
    decreases j,
{
    let longer = calls.subrange(0, j);
    assert(longer.drop_last() =~= calls.subrange(0, j - 1));
    assert(longer.subrange(0, j - 1) =~= calls.subrange(0, j - 1));
    if i < j - 1 {
        lemma_count_grows(v, calls, i, j - 1);
    } else {
        assert(longer.subrange(0, i) =~= calls.subrange(0, i));
        assert(commits_at(v, longer, i));
    }
}

/// An envelope that is admitted for the first time is delivered once to each client of its
/// route, in the order of their interest, with the same payload bytes; one that is refused or
/// was routed before is delivered to nobody.
pub proof fn law_deliveries(v: BrokerView, envelope: WireEnvelope<'_>)
    requires
        v.wf(),
    ensures
        ({
            let made = v.deliveries(envelope);
            let clients = v.clients(
                RouteKey { event: envelope.event, wire_major: envelope.wire_major },
            );
            if v.refuses(envelope.metadata) is Some || v.repeated(envelope.metadata) {
                made.len() == 0
            } else {
                &&& made.len() == clients.len()
                &&& forall|i: int|
                    0 <= i < made.len() ==> {
                        &&& (#[trigger] made[i]).0 == clients[i]
                        &&& made[i].1.payload == envelope.payload
                        &&& made[i].1.metadata == v.stamped(envelope.metadata)
                    }
                &&& forall|i: int, j: int|
                    #![trigger made[i], made[j]]
                    0 <= i < j < made.len() ==> made[i].0 != made[j].0
            }
        }),
{
}

/// Everything that becomes of an envelope. It is refused if no hop is left of its time to live,
/// or if its origin is new and the table of origins is full; it goes nowhere if its origin is
/// known with this sequence or a later one. Neither changes the broker. Otherwise every client
/// of its route gets, in the order of their interest, the event, wire major, schema revision and
/// payload that were published, with metadata that differ only by the hop that is taken from a
/// finite time to live and by the number of the commit; and the broker remembers the sequence.
pub proof fn law_routed_envelope(v: BrokerView, envelope: WireEnvelope<'_>)
    requires
        v.wf(),
    ensures
        ({
            let given = envelope.metadata;
            let known = v.seen.contains_key(given.origin);
            let expired = given.ttl == Some(0u32);
            let crowded = !known && v.seen.len() >= v.capacity;
            let old_news = known && given.sequence <= v.seen[given.origin];
            let route = RouteKey { event: envelope.event, wire_major: envelope.wire_major };
            let number = ((v.commits + 1) % (u64::MAX + 1)) as u64;
            let made = v.deliveries(envelope);
            let after = v.routed(given);
            &&& v.refuses(given) == if expired {
                Some(BrokerError::Expired)
            } else if crowded {
                Some(BrokerError::OriginCapacity)
            } else {
                None
            }
            &&& v.repeated(given) == old_news
            &&& if expired || crowded || old_news {
                made.len() == 0 && after == v
            } else {
                &&& made.len() == if v.routes.contains_key(route) {
                    v.routes[route].len()
                } else {
                    0
                }
                &&& forall|i: int|
                    0 <= i < made.len() ==> {
                        let (client, got) = #[trigger] made[i];
                        &&& client == v.routes[route][i]
                        &&& got.event == envelope.event
                        &&& got.wire_major == envelope.wire_major
                        &&& got.schema_revision == envelope.schema_revision
                        &&& got.payload == envelope.payload
                        &&& got.metadata == (EventMetadata {
                            origin: given.origin,
                            sequence: given.sequence,
                            origin_time: given.origin_time,
                            ttl: if given.ttl is None {
                                None
                            } else {
                                Some((given.ttl->0 - 1) as u32)
                            },
                            fabric_sequence: Some(number),
                        })
                    }
                &&& v.stamped(given) == (EventMetadata {
                    origin: given.origin,
                    sequence: given.sequence,
                    origin_time: given.origin_time,
                    ttl: if given.ttl is None {
                        None
                    } else {
                        Some((given.ttl->0 - 1) as u32)
                    },
                    fabric_sequence: Some(number),
                })
                &&& after.routes == v.routes
                &&& after.capacity == v.capacity
                &&& after.commits == number
                &&& after.seen == v.seen.insert(given.origin, given.sequence)
            }
        }),
{
    lemma_next_number(v.commits as int);
    lemma_small_mod(v.commits as nat, commit_numbers() as nat);
}

/// An interest that is declared comes last in its route, unless it was there. Nothing else
/// changes.
pub proof fn law_subscribe(v: BrokerView, route: RouteKey, client: ClientId, other: RouteKey)
    requires
        v.wf(),
    ensures
        ({
            let after = v.subscribe(route, client);
            let was = if v.routes.contains_key(route) {
                v.routes[route]
            } else {
                Seq::empty()
            };
            &&& after.routes.contains_key(route)
            &&& after.routes[route] == if was.contains(client) {
                was
            } else {
                was.push(client)
            }
            &&& other != route ==> {
                &&& after.routes.contains_key(other) == v.routes.contains_key(other)
                &&& after.routes[other] == v.routes[other]
            }
            &&& after.seen == v.seen
            &&& after.capacity == v.capacity
            &&& after.commits == v.commits
        }),
{
}

/// What is left of a route is its other clients, in the order in which they stood.
proof fn lemma_without_filter(clients: Seq<ClientId>, client: ClientId)
    ensures
        without(clients, client) == clients.filter(|c: ClientId| c != client),
    decreases clients.len(),
{
    reveal(Seq::filter);
    if clients.len() > 0 {
        lemma_without_filter(clients.drop_last(), client);
    }
}

/// An interest that is taken back leaves its route to the others, in the order in which they
/// stood, and a route without clients is gone. Nothing else changes.
pub proof fn law_unsubscribe(v: BrokerView, route: RouteKey, client: ClientId, other: RouteKey)
    requires
        v.wf(),
    ensures
        ({
            let after = v.unsubscribe(route, client);
            let left = v.routes[route].filter(|c: ClientId| c != client);
            &&& after.routes.contains_key(route) <==> v.routes.contains_key(route) && left.len() > 0
            &&& after.routes.contains_key(route) ==> after.routes[route] == left
            &&& other != route ==> {
                &&& after.routes.contains_key(other) == v.routes.contains_key(other)
                &&& after.routes[other] == v.routes[other]
            }
            &&& after.seen == v.seen
            &&& after.capacity == v.capacity
            &&& after.commits == v.commits
        }),
{
    lemma_without_filter(v.routes[route], client);
}

/// A client that is gone leaves every route to the others, in the order in which they stood.
/// Nothing else changes.
pub proof fn law_client_gone(v: BrokerView, client: ClientId, route: RouteKey)
    requires
        v.wf(),
    ensures
        ({
            let after = v.remove_client(client);
            let left = v.routes[route].filter(|c: ClientId| c != client);
            &&& after.routes.contains_key(route) <==> v.routes.contains_key(route) && left.len() > 0
            &&& after.routes.contains_key(route) ==> after.routes[route] == left
            &&& after.seen == v.seen
            &&& after.capacity == v.capacity
            &&& after.commits == v.commits
        }),
{
    lemma_without_filter(v.routes[route], client);
}

} // verus!
