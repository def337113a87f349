//! Opaque routing of encoded events.
use crate::delivery::{Delivered, Deliveries};
use crate::event::{EventId, EventSpec};
use crate::fabric::share;
use crate::metadata::{EventMetadata, OriginId, WireEnvelope, WireMajor};
use std::sync::Arc;
use vstd::prelude::*;

verus! {

/// Default bound for origin high-water marks retained by one broker.
pub const DEFAULT_SEEN_ORIGINS: usize = 4096;

/// Opaque subscriber identity used by a transport broker.
#[derive(Clone, Copy, Debug, PartialEq, Eq, Structural, Hash)]
pub struct ClientId(pub u64);

/// Immutable subscriber snapshot captured for one routed envelope.
pub type ClientSnapshot = Arc<[ClientId]>;

/// Routed envelope plus its immutable client snapshot.
pub type RoutedEnvelope<'a> = (WireEnvelope<'a>, Option<ClientSnapshot>);

/// Makes a snapshot of a list of clients.
///
/// Calls [`Arc::from`], which moves the items of a vector into a shared slice.
#[verifier::external_body]
fn frozen(clients: Vec<ClientId>) -> (snapshot: ClientSnapshot)
    ensures
        snapshot@ == clients@,
{
    Arc::from(clients)
}

/// Dynamic wire route key. Payload types are intentionally absent.
#[derive(Clone, Copy, Debug, PartialEq, Eq, Structural, Hash)]
pub struct RouteKey {
    /// Event identity.
    pub event: EventId,
    /// Breaking wire generation.
    pub wire_major: WireMajor,
}

impl RouteKey {
    /// Builds the wire route for one statically declared event.
    #[must_use]
    pub fn for_event<S: EventSpec>() -> (key: Self)
        ensures
            key == (RouteKey { event: S::ID, wire_major: WireMajor(S::WIRE_MAJOR) }),
    {
        RouteKey { event: S::ID, wire_major: WireMajor(S::WIRE_MAJOR) }
    }
}

/// Failure while admitting an opaque wire envelope.
#[derive(Clone, Copy, Debug, PartialEq, Eq, Structural)]
pub enum BrokerError {
    /// The envelope's TTL has expired.
    Expired,
    /// The bounded origin table has no slot for a new origin.
    OriginCapacity,
}

/// The map that a table of keys and values stands for.
pub open spec fn table_map<K, V>(table: Seq<(K, V)>) -> Map<K, V>
    decreases table.len(),
{
    if table.len() == 0 {
        Map::empty()
    } else {
        table_map(table.drop_last()).insert(table.last().0, table.last().1)
    }
}

/// No key stands twice in the table.
pub open spec fn distinct_keys<K, V>(table: Seq<(K, V)>) -> bool {
    forall|i: int, j: int|
        #![trigger table[i], table[j]]
        0 <= i < j < table.len() ==> table[i].0 != table[j].0
}

/// What the map of a table without repeated keys holds.
proof fn lemma_table<K, V>(table: Seq<(K, V)>)
    requires
        distinct_keys(table),
    ensures
        forall|i: int|
            0 <= i < table.len() ==> table_map(table).contains_key((#[trigger] table[i]).0)
                && table_map(table)[table[i].0] == table[i].1,
        forall|k: K| #[trigger]
            table_map(table).contains_key(k) ==> exists|i: int|
                0 <= i < table.len() && (#[trigger] table[i]).0 == k,
        table_map(table).dom().finite(),
        table_map(table).len() == table.len(),
    decreases table.len(),
{
    if table.len() > 0 {
        let rest = table.drop_last();
        assert forall|i: int, j: int|
            #![trigger rest[i], rest[j]]
            0 <= i < j < rest.len() implies rest[i].0 != rest[j].0 by {
            assert(table[i].0 != table[j].0);
        }
        lemma_table(rest);
        let map = table_map(table);
        let last = table.last();
        assert forall|i: int| 0 <= i < table.len() implies map.contains_key(
            (#[trigger] table[i]).0,
        ) && map[table[i].0] == table[i].1 by {
            if i < rest.len() {
                assert(rest[i] == table[i]);
                assert(table[i].0 != table[table.len() - 1].0);
            }
        }
        assert(!table_map(rest).contains_key(last.0)) by {
            if table_map(rest).contains_key(last.0) {
                let i = choose|i: int| 0 <= i < rest.len() && (#[trigger] rest[i]).0 == last.0;
                assert(table[i].0 != table[table.len() - 1].0);
            }
        }
        assert forall|k: K| #[trigger] map.contains_key(k) implies exists|i: int|
            0 <= i < table.len() && (#[trigger] table[i]).0 == k by {
            if k != last.0 {
                assert(table_map(rest).contains_key(k));
                let i = choose|i: int| 0 <= i < rest.len() && (#[trigger] rest[i]).0 == k;
                assert(table[i].0 == k);
            } else {
                assert(table[table.len() - 1].0 == k);
            }
        }
    }
}

/// A map whose entries are those of the table is the table's map.
proof fn lemma_table_is<K, V>(table: Seq<(K, V)>, map: Map<K, V>)
    requires
        distinct_keys(table),
        forall|i: int|
            0 <= i < table.len() ==> map.contains_key((#[trigger] table[i]).0) && map[table[i].0]
                == table[i].1,
        forall|k: K| #[trigger]
            map.contains_key(k) ==> exists|i: int|
                0 <= i < table.len() && (#[trigger] table[i]).0 == k,
    ensures
        table_map(table) == map,
{
    lemma_table(table);
    assert forall|k: K| #[trigger] table_map(table).contains_key(k) == map.contains_key(k) by {
        if table_map(table).contains_key(k) {
            let i = choose|i: int| 0 <= i < table.len() && (#[trigger] table[i]).0 == k;
            assert(map.contains_key(table[i].0));
        }
        if map.contains_key(k) {
            let i = choose|i: int| 0 <= i < table.len() && (#[trigger] table[i]).0 == k;
            assert(table_map(table).contains_key(table[i].0));
        }
    }
    assert forall|k: K| table_map(table).contains_key(k) implies #[trigger] table_map(table)[k]
        == map[k] by {
        let i = choose|i: int| 0 <= i < table.len() && (#[trigger] table[i]).0 == k;
        assert(map[table[i].0] == table[i].1);
    }
    assert(table_map(table) =~= map);
}

/// The clients without one of them.
pub open spec fn without(clients: Seq<ClientId>, client: ClientId) -> Seq<ClientId>
    decreases clients.len(),
{
    if clients.len() == 0 {
        Seq::empty()
    } else if clients.last() == client {
        without(clients.drop_last(), client)
    } else {
        without(clients.drop_last(), client).push(clients.last())
    }
}

/// What [`without`] leaves.
pub proof fn lemma_without(clients: Seq<ClientId>, client: ClientId)
    ensures
        forall|c: ClientId| #[trigger]
            without(clients, client).contains(c) <==> clients.contains(c) && c != client,
        clients.no_duplicates() ==> without(clients, client).no_duplicates(),
        !clients.contains(client) ==> without(clients, client) == clients,
        without(clients, client).len() <= clients.len(),
    decreases clients.len(),
{
    if clients.len() > 0 {
        let rest = clients.drop_last();
        let last = clients.last();
        let shorter = without(rest, client);
        lemma_without(rest, client);
        assert(rest.push(last) =~= clients);
        assert forall|c: ClientId| #[trigger] without(clients, client).contains(c)
            <==> clients.contains(c) && c != client by {
            assert(clients.contains(c) <==> rest.contains(c) || c == last) by {
                if clients.contains(c) {
                    let i = choose|i: int| 0 <= i < clients.len() && clients[i] == c;
                    if i < rest.len() {
                        assert(rest[i] == c);
                    }
                }
                if rest.contains(c) {
                    let i = choose|i: int| 0 <= i < rest.len() && rest[i] == c;
                    assert(clients[i] == c);
                }
                if c == last {
                    assert(clients[clients.len() - 1] == c);
                }
            }
            if last != client {
                let longer = shorter.push(last);
                if longer.contains(c) {
                    let i = choose|i: int| 0 <= i < longer.len() && longer[i] == c;
                    if i < shorter.len() {
                        assert(shorter[i] == c);
                        assert(shorter.contains(c));
                    }
                }
                if shorter.contains(c) {
                    let i = choose|i: int| 0 <= i < shorter.len() && shorter[i] == c;
                    assert(longer[i] == c);
                }
                if c == last {
                    assert(longer[longer.len() - 1] == c);
                }
            }
        }
        if clients.no_duplicates() {
            assert(rest.no_duplicates());
            if last != client {
                assert(!rest.contains(last)) by {
                    if rest.contains(last) {
                        let i = choose|i: int| 0 <= i < rest.len() && rest[i] == last;
                        assert(clients[i] == clients[clients.len() - 1]);
                    }
                }
                assert(!shorter.contains(last));
                let longer = shorter.push(last);
                assert forall|i: int, j: int|
                    0 <= i < longer.len() && 0 <= j < longer.len() && i != j implies longer[i]
                    != longer[j] by {
                    if i < shorter.len() && j == shorter.len() {
                        assert(shorter.contains(shorter[i]));
                    }
                    if j < shorter.len() && i == shorter.len() {
                        assert(shorter.contains(shorter[j]));
                    }
                }
            }
        }
        if !clients.contains(client) {
            assert(clients[clients.len() - 1] == last);
            assert(!rest.contains(client)) by {
                if rest.contains(client) {
                    let i = choose|i: int| 0 <= i < rest.len() && rest[i] == client;
                    assert(clients[i] == client);
                }
            }
            assert(without(clients, client) =~= clients);
        }
    }
}

/// What a broker holds.
#[verifier::ext_equal]
pub struct BrokerView {
    /// Interested clients of each route, in the order of their interest.
    pub routes: Map<RouteKey, Seq<ClientId>>,
    /// Highest sequence admitted of each origin.
    pub seen: Map<OriginId, u64>,
    /// Bound of `seen`.
    pub capacity: nat,
    /// Number of the last commit, modulo the size of the counter.
    pub commits: u64,
}

impl BrokerView {
    /// The clients of a route.
    pub open spec fn clients(self, route: RouteKey) -> Seq<ClientId> {
        if self.routes.contains_key(route) {
            self.routes[route]
        } else {
            Seq::empty()
        }
    }

    /// One more interest.
    pub open spec fn subscribe(self, route: RouteKey, client: ClientId) -> BrokerView {
        if self.clients(route).contains(client) {
            self
        } else {
            BrokerView {
                routes: self.routes.insert(route, self.clients(route).push(client)),
                ..self
            }
        }
    }

    /// One interest less. A route without clients is gone.
    pub open spec fn unsubscribe(self, route: RouteKey, client: ClientId) -> BrokerView {
        let clients = without(self.clients(route), client);
        if !self.routes.contains_key(route) {
            self
        } else if clients.len() == 0 {
            BrokerView { routes: self.routes.remove(route), ..self }
        } else {
            BrokerView { routes: self.routes.insert(route, clients), ..self }
        }
    }

    /// No interest of the client.
    pub open spec fn remove_client(self, client: ClientId) -> BrokerView {
        BrokerView {
            routes: Map::new(
                |route: RouteKey|
                    self.routes.contains_key(route) && without(self.routes[route], client).len()
                        > 0,
                |route: RouteKey| without(self.routes[route], client),
            ),
            ..self
        }
    }

    /// The sequence of the origin has been admitted before.
    pub open spec fn repeated(self, metadata: EventMetadata) -> bool {
        self.seen.contains_key(metadata.origin) && metadata.sequence <= self.seen[metadata.origin]
    }

    /// Why an envelope is refused, if it is.
    pub open spec fn refuses(self, metadata: EventMetadata) -> Option<BrokerError> {
        if !metadata.may_hop() {
            Some(BrokerError::Expired)
        } else if !self.seen.contains_key(metadata.origin) && self.seen.len() >= self.capacity {
            Some(BrokerError::OriginCapacity)
        } else {
            None
        }
    }

    /// Number of the next commit.
    pub open spec fn next_commit(self) -> u64 {
        if self.commits == u64::MAX {
            0
        } else {
            (self.commits + 1) as u64
        }
    }

    /// The broker after an envelope.
    pub open spec fn routed(self, metadata: EventMetadata) -> BrokerView {
        if self.refuses(metadata) is Some || self.repeated(metadata) {
            self
        } else {
            BrokerView {
                seen: self.seen.insert(metadata.origin, metadata.sequence),
                commits: self.next_commit(),
                ..self
            }
        }
    }

    /// The metadata of a routed envelope.
    pub open spec fn stamped(self, metadata: EventMetadata) -> EventMetadata {
        EventMetadata { fabric_sequence: Some(self.next_commit()), ..metadata.hopped() }
    }

    /// Whom an envelope is delivered to, in order, and as what: every client of its route,
    /// unless it is refused or was routed before.
    pub open spec fn deliveries<'a>(self, envelope: WireEnvelope<'a>) -> Seq<
        (ClientId, WireEnvelope<'a>),
    > {
        let clients = self.clients(
            RouteKey { event: envelope.event, wire_major: envelope.wire_major },
        );
        let routed = WireEnvelope { metadata: self.stamped(envelope.metadata), ..envelope };
        if self.refuses(envelope.metadata) is Some || self.repeated(envelope.metadata) {
            Seq::empty()
        } else {
            Seq::new(clients.len(), |i: int| (clients[i], routed))
        }
    }

    /// What holds of every broker.
    pub open spec fn wf(self) -> bool {
        &&& self.capacity > 0
        &&& self.seen.dom().finite()
        &&& self.seen.len() <= self.capacity
        &&& forall|route: RouteKey| #[trigger]
            self.routes.contains_key(route) ==> self.routes[route].len() > 0
                && self.routes[route].no_duplicates()
    }
}

struct Route {
    key: RouteKey,
    clients: ClientSnapshot,
}

struct HighWater {
    origin: OriginId,
    sequence: u64,
}

/// Minimal opaque broker core for a link driver.
///
/// The deduplication table stores one high-water sequence per origin.
pub struct Broker {
    routes: Vec<Route>,
    seen: Vec<HighWater>,
    max_seen_origins: usize,
    commits: u64,
}

spec fn route_table(routes: Seq<Route>) -> Seq<(RouteKey, Seq<ClientId>)> {
    routes.map_values(|route: Route| (route.key, route.clients@))
}

spec fn seen_table(seen: Seq<HighWater>) -> Seq<(OriginId, u64)> {
    seen.map_values(|mark: HighWater| (mark.origin, mark.sequence))
}

impl View for Broker {
    type V = BrokerView;

    closed spec fn view(&self) -> BrokerView {
        BrokerView {
            routes: table_map(route_table(self.routes@)),
            seen: table_map(seen_table(self.seen@)),
            capacity: self.max_seen_origins as nat,
            commits: self.commits,
        }
    }
}

/// The key is among the first `count`.
spec fn listed(keys: Seq<RouteKey>, count: int, key: RouteKey) -> bool {
    exists|i: int| 0 <= i < count && #[trigger] keys[i] == key
}

impl Broker {
    /// The broker is consistent.
    pub closed spec fn wf(&self) -> bool {
        &&& distinct_keys(route_table(self.routes@))
        &&& distinct_keys(seen_table(self.seen@))
        &&& self@.wf()
    }

    /// Every consistent broker has a consistent view.
    pub broadcast proof fn lemma_wf(&self)
        requires
            #[trigger] self.wf(),
        ensures
            self@.wf(),
    {
    }

    /// Creates an empty broker.
    #[must_use]
    pub fn new() -> (broker: Self)
        ensures
            broker.wf(),
            broker@ == (BrokerView {
                routes: Map::empty(),
                seen: Map::empty(),
                capacity: DEFAULT_SEEN_ORIGINS as nat,
                commits: 0,
            }),
    {
        Broker::with_seen_origin_capacity(DEFAULT_SEEN_ORIGINS)
    }

    /// Creates an empty broker with an explicit deduplication bound.
    #[must_use]
    pub fn with_seen_origin_capacity(max_seen_origins: usize) -> (broker: Self)
        requires
            max_seen_origins > 0,
        ensures
            broker.wf(),
            broker@ == (BrokerView {
                routes: Map::empty(),
                seen: Map::empty(),
                capacity: max_seen_origins as nat,
                commits: 0,
            }),
    {
        let broker = Broker {
            routes: Vec::new(),
            seen: Vec::new(),
            max_seen_origins,
            commits: 0,
        };
        assert(route_table(broker.routes@) =~= Seq::empty());
        assert(seen_table(broker.seen@) =~= Seq::empty());
        assert(broker@.seen.len() == 0);
        broker
    }

    /// Returns the number of retained origin high-water marks.
    #[must_use]
    pub fn seen_origin_count(&self) -> (count: usize)
        requires
            self.wf(),
        ensures
            count == self@.seen.len(),
    {
        proof {
            lemma_table(seen_table(self.seen@));
        }
        self.seen.len()
    }

    /// Position of an origin.
    fn find_origin(&self, origin: OriginId) -> (found: Option<usize>)
        requires
            self.wf(),
        ensures
            match found {
                Some(i) => i < self.seen@.len() && self.seen@[i as int].origin == origin
                    && self@.seen.contains_key(origin) && self@.seen[origin]
                    == self.seen@[i as int].sequence,
                None => !self@.seen.contains_key(origin),
            },
    {
        let mut index: usize = 0;
        proof {
            lemma_table(seen_table(self.seen@));
        }
        while index < self.seen.len()
            invariant
                index <= self.seen@.len(),
                self.wf(),
                forall|i: int| 0 <= i < index ==> (#[trigger] self.seen@[i]).origin != origin,
            decreases self.seen@.len() - index,
        {
            if self.seen[index].origin.same(&origin) {
                proof {
                    lemma_table(seen_table(self.seen@));
                    assert(seen_table(self.seen@)[index as int].0 == origin);
                }
                return Some(index);
            }
            index += 1;
        }
        assert(!self@.seen.contains_key(origin)) by {
            if self@.seen.contains_key(origin) {
                let table = seen_table(self.seen@);
                let i = choose|i: int| 0 <= i < table.len() && (#[trigger] table[i]).0 == origin;
                assert(self.seen@[i].origin == origin);
            }
        }
        None
    }

    /// Forgets one origin after its producer is known to be gone.
    pub fn forget_origin(&mut self, origin: OriginId) -> (known: bool)
        requires
            old(self).wf(),
        ensures
            final(self).wf(),
            known == old(self)@.seen.contains_key(origin),
            final(self)@ == (BrokerView { seen: old(self)@.seen.remove(origin), ..old(self)@ }),
    {
        let ghost before = *self;
        match self.find_origin(origin) {
            Some(index) => {
                let _ = self.seen.swap_remove(index);
                proof {
                    let table = seen_table(before.seen@);
                    let after = seen_table(self.seen@);
                    lemma_table(table);
                    let map = table_map(table).remove(origin);
                    assert(table[index as int].0 == origin);
                    let n = table.len();
                    assert forall|i: int, j: int|
                        #![trigger after[i], after[j]]
                        0 <= i < j < after.len() implies after[i].0 != after[j].0 by {
                        let a = if i == index { n - 1 } else { i };
                        let b = if j == index { n - 1 } else { j };
                        assert(table[a] == after[i]);
                        assert(table[b] == after[j]);
                    }
                    assert forall|i: int| 0 <= i < after.len() implies map.contains_key(
                        (#[trigger] after[i]).0,
                    ) && map[after[i].0] == after[i].1 by {
                        let a = if i == index { n - 1 } else { i };
                        assert(table[a] == after[i]);
                        assert(table[a].0 != table[index as int].0);
                    }
                    assert forall|k: OriginId| #[trigger] map.contains_key(k) implies exists|i: int|
                        0 <= i < after.len() && (#[trigger] after[i]).0 == k by {
                        assert(table_map(table).contains_key(k));
                        let a = choose|a: int| 0 <= a < n && (#[trigger] table[a]).0 == k;
                        let i = if a == n - 1 { index as int } else { a };
                        assert(after[i] == table[a]);
                    }
                    lemma_table_is(after, map);
                }
                true
            },
            None => {
                assert(self@.seen.remove(origin) =~= self@.seen);
                false
            },
        }
    }

    /// Position of a route.
    fn find_route(&self, route: RouteKey) -> (found: Option<usize>)
        requires
            self.wf(),
        ensures
            match found {
                Some(i) => i < self.routes@.len() && self.routes@[i as int].key == route
                    && self@.routes.contains_key(route) && self@.routes[route]
                    == self.routes@[i as int].clients@,
                None => !self@.routes.contains_key(route),
            },
    {
        let mut index: usize = 0;
        while index < self.routes.len()
            invariant
                index <= self.routes@.len(),
                self.wf(),
                forall|i: int| 0 <= i < index ==> (#[trigger] self.routes@[i]).key != route,
            decreases self.routes@.len() - index,
        {
            if self.routes[index].key == route {
                proof {
                    lemma_table(route_table(self.routes@));
                    assert(route_table(self.routes@)[index as int].0 == route);
                }
                return Some(index);
            }
            index += 1;
        }
        assert(!self@.routes.contains_key(route)) by {
            lemma_table(route_table(self.routes@));
            if self@.routes.contains_key(route) {
                let table = route_table(self.routes@);
                let i = choose|i: int| 0 <= i < table.len() && (#[trigger] table[i]).0 == route;
                assert(self.routes@[i].key == route);
            }
        }
        None
    }

    /// Replaces the clients of a route that is there.
    fn set_route(&mut self, index: usize, clients: Vec<ClientId>)
        requires
            old(self).wf(),
            index < old(self).routes@.len(),
            clients@.len() > 0,
            clients@.no_duplicates(),
        ensures
            final(self).wf(),
            final(self)@ == (BrokerView {
                routes: old(self)@.routes.insert(old(self).routes@[index as int].key, clients@),
                ..old(self)@
            }),
    {
        let ghost before = *self;
        let ghost list = clients@;
        let key = self.routes[index].key;
        self.routes.set(index, Route { key, clients: frozen(clients) });
        proof {
            let table = route_table(before.routes@);
            let after = route_table(self.routes@);
            lemma_table(table);
            let map = table_map(table).insert(key, list);
            assert(after =~= table.update(index as int, (key, list)));
            assert forall|i: int, j: int|
                #![trigger after[i], after[j]]
                0 <= i < j < after.len() implies after[i].0 != after[j].0 by {
                assert(table[i].0 != table[j].0);
            }
            assert forall|i: int| 0 <= i < after.len() implies map.contains_key(
                (#[trigger] after[i]).0,
            ) && map[after[i].0] == after[i].1 by {
                assert(table[i].0 == after[i].0);
                assert(table[index as int].0 == key);
            }
            assert forall|k: RouteKey| #[trigger] map.contains_key(k) implies exists|i: int|
                0 <= i < after.len() && (#[trigger] after[i]).0 == k by {
                if k == key {
                    assert(after[index as int].0 == k);
                } else {
                    assert(table_map(table).contains_key(k));
                    let i = choose|i: int| 0 <= i < table.len() && (#[trigger] table[i]).0 == k;
                    assert(after[i].0 == k);
                }
            }
            lemma_table_is(after, map);
            assert(self.wf());
        }
    }

    /// Adds one client interest declaration.
    pub fn subscribe(&mut self, route: RouteKey, client: ClientId)
        requires
            old(self).wf(),
        ensures
            final(self).wf(),
            final(self)@ == old(self)@.subscribe(route, client),
    {
        let ghost before = *self;
        match self.find_route(route) {
            Some(found) => {
                let clients = share(&self.routes[found].clients);
                let mut next: Vec<ClientId> = Vec::with_capacity(clients.len());
                let mut index: usize = 0;
                while index < clients.len()
                    invariant
                        index <= clients@.len(),
                        next@ == clients@.subrange(0, index as int),
                        forall|i: int| 0 <= i < index ==> #[trigger] clients@[i] != client,
                        *self == before,
                        before.wf(),
                        before@.routes.contains_key(route),
                        before@.routes[route] == clients@,
                    decreases clients@.len() - index,
                {
                    if clients[index] == client {
                        assert(clients@.contains(client));
                        return ;
                    }
                    next.push(clients[index]);
                    index += 1;
                    assert(next@ =~= clients@.subrange(0, index as int));
                }
                assert(clients@.subrange(0, index as int) =~= clients@);
                next.push(client);
                assert(next@.no_duplicates());
                self.set_route(found, next);
            },
            None => {
                assert(!before@.clients(route).contains(client));
                let mut next: Vec<ClientId> = Vec::new();
                next.push(client);
                assert(next@ =~= before@.clients(route).push(client));
                let ghost list = next@;
                self.routes.push(Route { key: route, clients: frozen(next) });
                proof {
                    let table = route_table(before.routes@);
                    let after = route_table(self.routes@);
                    lemma_table(table);
                    assert(after =~= table.push((route, list)));
                    assert forall|i: int, j: int|
                        #![trigger after[i], after[j]]
                        0 <= i < j < after.len() implies after[i].0 != after[j].0 by {
                        assert(after[i] == table[i]);
                        assert(table_map(table).contains_key(table[i].0));
                        if j < table.len() {
                            assert(after[j] == table[j]);
                        }
                    }
                    assert(after.drop_last() =~= table);
                }
            },
        }
    }

    /// Removes the interest of a client in the route at a position.
    fn drop_interest(&mut self, found: usize, client: ClientId)
        requires
            old(self).wf(),
            found < old(self).routes@.len(),
        ensures
            final(self).wf(),
            final(self)@ == old(self)@.unsubscribe(old(self).routes@[found as int].key, client),
    {
        let ghost before = *self;
        let ghost key = self.routes@[found as int].key;
        proof {
            lemma_table(route_table(before.routes@));
            assert(route_table(before.routes@)[found as int].0 == key);
        }
        let clients = share(&self.routes[found].clients);
        let mut next: Vec<ClientId> = Vec::with_capacity(clients.len());
        let mut index: usize = 0;
        assert(clients@.subrange(0, 0) =~= Seq::empty());
        while index < clients.len()
            invariant
                index <= clients@.len(),
                next@ == without(clients@.subrange(0, index as int), client),
                next@.len() <= index,
                next@.len() == index ==> next@ == clients@.subrange(0, index as int),
            decreases clients@.len() - index,
        {
            let ghost part = clients@.subrange(0, index + 1);
            assert(part.drop_last() =~= clients@.subrange(0, index as int));
            if clients[index] != client {
                next.push(clients[index]);
            }
            index += 1;
            assert(next@.len() == index ==> next@ =~= clients@.subrange(0, index as int));
        }
        proof {
            assert(clients@.subrange(0, index as int) =~= clients@);
            lemma_without(clients@, client);
            assert(before@.routes.contains_key(key));
        }
        if next.len() == 0 {
            let _ = self.routes.remove(found);
            proof {
                let table = route_table(before.routes@);
                let after = route_table(self.routes@);
                let map = table_map(table).remove(key);
                assert(after =~= table.remove(found as int));
                assert forall|i: int, j: int|
                    #![trigger after[i], after[j]]
                    0 <= i < j < after.len() implies after[i].0 != after[j].0 by {
                    let a = if i >= found { i + 1 } else { i };
                    let b = if j >= found { j + 1 } else { j };
                    assert(table[a] == after[i]);
                    assert(table[b] == after[j]);
                }
                assert forall|i: int| 0 <= i < after.len() implies map.contains_key(
                    (#[trigger] after[i]).0,
                ) && map[after[i].0] == after[i].1 by {
                    let a = if i >= found { i + 1 } else { i };
                    assert(table[a] == after[i]);
                    assert(table[a].0 != table[found as int].0);
                }
                assert forall|k: RouteKey| #[trigger] map.contains_key(k) implies exists|i: int|
                    0 <= i < after.len() && (#[trigger] after[i]).0 == k by {
                    assert(table_map(table).contains_key(k));
                    let a = choose|a: int| 0 <= a < table.len() && (#[trigger] table[a]).0 == k;
                    let i = if a > found { a - 1 } else { a };
                    assert(after[i] == table[a]);
                }
                lemma_table_is(after, map);
            }
        } else if next.len() != clients.len() {
            self.set_route(found, next);
        } else {
            assert(before@.routes.insert(key, clients@) =~= before@.routes);
        }
    }

    /// Removes one client interest declaration.
    pub fn unsubscribe(&mut self, route: RouteKey, client: ClientId)
        requires
            old(self).wf(),
        ensures
            final(self).wf(),
            final(self)@ == old(self)@.unsubscribe(route, client),
    {
        match self.find_route(route) {
            Some(found) => {
                self.drop_interest(found, client);
            },
            None => {},
        }
    }

    /// Returns whether any client currently wants this route.
    #[must_use]
    pub fn has_interest(&self, route: RouteKey) -> (wanted: bool)
        requires
            self.wf(),
        ensures
            wanted == (self@.clients(route).len() > 0),
    {
        match self.find_route(route) {
            Some(found) => self.routes[found].clients.len() > 0,
            None => false,
        }
    }

    /// Removes every route owned by one disconnected client.
    pub fn remove_client(&mut self, client: ClientId)
        requires
            old(self).wf(),
        ensures
            final(self).wf(),
            final(self)@ == old(self)@.remove_client(client),
    {
        let ghost before = self@;
        let keys = self.keys();
        let mut index: usize = 0;
        while index < keys.len()
            invariant
                self.wf(),
                before.wf(),
                index <= keys@.len(),
                keys@.no_duplicates(),
                forall|i: int|
                    0 <= i < keys@.len() ==> before.routes.contains_key(#[trigger] keys@[i]),
                self@.seen == before.seen,
                self@.capacity == before.capacity,
                self@.commits == before.commits,
                forall|k: RouteKey| #[trigger]
                    self@.routes.contains_key(k) == (before.routes.contains_key(k) && (listed(
                        keys@,
                        index as int,
                        k,
                    ) ==> without(before.routes[k], client).len() > 0)),
                forall|k: RouteKey| #[trigger]
                    self@.routes.contains_key(k) ==> self@.routes[k] == if listed(
                        keys@,
                        index as int,
                        k,
                    ) {
                        without(before.routes[k], client)
                    } else {
                        before.routes[k]
                    },
            decreases keys@.len() - index,
        {
            let ghost middle = self@;
            let key = keys[index];
            assert(!listed(keys@, index as int, key));
            assert(middle.routes.contains_key(key));
            self.unsubscribe(key, client);
            proof {
                assert forall|k: RouteKey| #[trigger] listed(keys@, index + 1, k) == (listed(
                    keys@,
                    index as int,
                    k,
                ) || k == key) by {
                    if k == key {
                        assert(keys@[index as int] == k);
                    }
                }
                assert forall|k: RouteKey| k != key implies #[trigger] self@.routes.contains_key(k)
                    == middle.routes.contains_key(k) by {}
            }
            index += 1;
        }
        assert(self@.routes =~= before.remove_client(client).routes);
    }

    /// The routes that have clients.
    fn keys(&self) -> (keys: Vec<RouteKey>)
        requires
            self.wf(),
        ensures
            keys@.no_duplicates(),
            forall|k: RouteKey| #[trigger]
                self@.routes.contains_key(k) <==> listed(keys@, keys@.len() as int, k),
            forall|i: int|
                0 <= i < keys@.len() ==> self@.routes.contains_key(#[trigger] keys@[i]),
    {
        let mut keys: Vec<RouteKey> = Vec::with_capacity(self.routes.len());
        let mut index: usize = 0;
        while index < self.routes.len()
            invariant
                index <= self.routes@.len(),
                keys@.len() == index,
                forall|i: int| 0 <= i < index ==> #[trigger] keys@[i] == self.routes@[i].key,
            decreases self.routes@.len() - index,
        {
            keys.push(self.routes[index].key);
            index += 1;
        }
        proof {
            let table = route_table(self.routes@);
            lemma_table(table);
            assert forall|i: int| 0 <= i < keys@.len() implies self@.routes.contains_key(
                #[trigger] keys@[i],
            ) by {
                assert(table[i].0 == keys@[i]);
            }
            assert forall|k: RouteKey| #[trigger] self@.routes.contains_key(k) implies listed(
                keys@,
                keys@.len() as int,
                k,
            ) by {
                let i = choose|i: int| 0 <= i < table.len() && (#[trigger] table[i]).0 == k;
                assert(keys@[i] == k);
            }
            assert forall|i: int, j: int|
                0 <= i < keys@.len() && 0 <= j < keys@.len() && i != j implies keys@[i]
                != keys@[j] by {
                assert(table[i].0 == keys@[i]);
                assert(table[j].0 == keys@[j]);
            }
        }
        keys
    }

    /// Admits one envelope and returns one immutable client snapshot.
    ///
    /// The returned envelope borrows the input payload. This split form lets a daemon
    /// encode the routed envelope once and write the same bytes to all clients in the
    /// snapshot. An envelope that was admitted before comes back as it was, without a
    /// snapshot.
    ///
    /// # Errors
    ///
    /// Returns [`BrokerError::Expired`] when no hop is left, and
    /// [`BrokerError::OriginCapacity`] when the origin is new and the table is full.
    pub fn route_snapshot<'a>(&mut self, envelope: WireEnvelope<'a>) -> (result: Result<
        RoutedEnvelope<'a>,
        BrokerError,
    >)
        requires
            old(self).wf(),
        ensures
            final(self).wf(),
            final(self)@ == old(self)@.routed(envelope.metadata),
            match old(self)@.refuses(envelope.metadata) {
                Some(error) => result == Err::<RoutedEnvelope<'a>, BrokerError>(error),
                None => {
                    &&& result matches Ok((routed, snapshot))
                    &&& if old(self)@.repeated(envelope.metadata) {
                        routed == envelope && snapshot is None
                    } else {
                        let route = RouteKey {
                            event: envelope.event,
                            wire_major: envelope.wire_major,
                        };
                        &&& routed == (WireEnvelope {
                            metadata: old(self)@.stamped(envelope.metadata),
                            ..envelope
                        })
                        &&& snapshot is Some == old(self)@.routes.contains_key(route)
                        &&& snapshot is Some ==> snapshot->0@ == old(self)@.routes[route]
                    }
                },
            },
    {
        let ghost before = *self;
        let mut metadata = envelope.metadata;
        if !metadata.consume_hop() {
            return Err(BrokerError::Expired);
        }
        proof {
            lemma_table(seen_table(before.seen@));
        }
        match self.find_origin(metadata.origin) {
            Some(index) => {
                if metadata.sequence <= self.seen[index].sequence {
                    return Ok((envelope, None));
                }
                self.seen.set(
                    index,
                    HighWater { origin: metadata.origin, sequence: metadata.sequence },
                );
                proof {
                    let table = seen_table(before.seen@);
                    let after = seen_table(self.seen@);
                    let map = table_map(table).insert(metadata.origin, metadata.sequence);
                    assert(after =~= table.update(
                        index as int,
                        (metadata.origin, metadata.sequence),
                    ));
                    assert forall|i: int, j: int|
                        #![trigger after[i], after[j]]
                        0 <= i < j < after.len() implies after[i].0 != after[j].0 by {
                        assert(table[i].0 != table[j].0);
                    }
                    assert forall|i: int| 0 <= i < after.len() implies map.contains_key(
                        (#[trigger] after[i]).0,
                    ) && map[after[i].0] == after[i].1 by {
                        assert(table[i].0 == after[i].0);
                        assert(table[index as int].0 == metadata.origin);
                    }
                    assert forall|k: OriginId| #[trigger] map.contains_key(k) implies exists|i: int|
                        0 <= i < after.len() && (#[trigger] after[i]).0 == k by {
                        if k == metadata.origin {
                            assert(after[index as int].0 == k);
                        } else {
                            assert(table_map(table).contains_key(k));
                            let i = choose|i: int| 0 <= i < table.len() && (#[trigger] table[i]).0 == k;
                            assert(after[i].0 == k);
                        }
                    }
                    lemma_table_is(after, map);
                    lemma_table(after);
                }
            },
            None => {
                if self.seen.len() >= self.max_seen_origins {
                    return Err(BrokerError::OriginCapacity);
                }
                self.seen.push(
                    HighWater { origin: metadata.origin, sequence: metadata.sequence },
                );
                proof {
                    let table = seen_table(before.seen@);
                    let after = seen_table(self.seen@);
                    assert(after =~= table.push((metadata.origin, metadata.sequence)));
                    assert forall|i: int, j: int|
                        #![trigger after[i], after[j]]
                        0 <= i < j < after.len() implies after[i].0 != after[j].0 by {
                        assert(after[i] == table[i]);
                        assert(table_map(table).contains_key(table[i].0));
                        if j < table.len() {
                            assert(after[j] == table[j]);
                        }
                    }
                    assert(after.drop_last() =~= table);
                    lemma_table(after);
                }
            },
        }
        self.commits = self.commits.wrapping_add(1);
        metadata.fabric_sequence = Some(self.commits);
        let routed = WireEnvelope {
            event: envelope.event,
            wire_major: envelope.wire_major,
            schema_revision: envelope.schema_revision,
            metadata,
            payload: envelope.payload,
        };
        let route = RouteKey { event: routed.event, wire_major: routed.wire_major };
        match self.find_route(route) {
            Some(found) => Ok((routed, Some(share(&self.routes[found].clients)))),
            None => Ok((routed, None)),
        }
    }

    /// Routes one envelope to every interested client, invoking `deliver` once per client
    /// with the same encoded payload bytes.
    ///
    /// The calls that are made are those of a [`Delivered`], which records each call and ends
    /// with the callback. What a closure does to what it captures is not part of the
    /// contract.
    ///
    /// # Errors
    ///
    /// Fails as [`Self::route_snapshot`] does, without a delivery.
    pub fn route<'a, F: FnMut(ClientId, WireEnvelope<'a>)>(
        &mut self,
        envelope: WireEnvelope<'a>,
        deliver: F,
    ) -> (result: Result<usize, BrokerError>)
        requires
            old(self).wf(),
            forall|client: ClientId, routed: WireEnvelope<'a>| #[trigger]
                deliver.requires((client, routed)),
        ensures
            final(self).wf(),
            final(self)@ == old(self)@.routed(envelope.metadata),
            result == match old(self)@.refuses(envelope.metadata) {
                Some(error) => Err::<usize, BrokerError>(error),
                None => Ok(old(self)@.deliveries(envelope).len() as usize),
            },
            old(self)@.deliveries(envelope).len() <= usize::MAX,
            exists|calls: Delivered<ClientId, WireEnvelope<'a>, F>|
                calls.given() == deliver && #[trigger] calls.made() == old(self)@.deliveries(
                    envelope,
                ),
            forall|i: int|
                0 <= i < old(self)@.deliveries(envelope).len() ==> deliver.ensures(
                    #[trigger] old(self)@.deliveries(envelope)[i],
                    (),
                ),
    {
        let ghost before = self@;
        let ghost owed = before.deliveries(envelope);
        let mut calls = Deliveries::new(deliver);
        match self.route_snapshot(envelope) {
            Err(error) => {
                let calls = calls.end();
                assert(calls.made() =~= owed);
                Err(error)
            },
            Ok((_, None)) => {
                let calls = calls.end();
                assert(calls.made() =~= owed);
                Ok(0)
            },
            Ok((routed, Some(clients))) => {
                let mut index: usize = 0;
                assert(owed.take(0) =~= Seq::empty());
                while index < clients.len()
                    invariant
                        index <= clients@.len(),
                        owed.len() == clients@.len(),
                        forall|i: int|
                            0 <= i < owed.len() ==> #[trigger] owed[i] == (clients@[i], routed),
                        calls.wf(),
                        calls.given() == deliver,
                        calls.made() == owed.take(index as int),
                        forall|client: ClientId, routed: WireEnvelope<'a>| #[trigger]
                            deliver.requires((client, routed)),
                        forall|i: int|
                            0 <= i < index ==> deliver.ensures(#[trigger] owed[i], ()),
                    decreases clients@.len() - index,
                {
                    assert(owed[index as int] == (clients@[index as int], routed));
                    assert(owed.take(index + 1) =~= owed.take(index as int).push(
                        owed[index as int],
                    ));
                    calls = calls.deliver(clients[index], routed);
                    index += 1;
                }
                let calls = calls.end();
                assert(owed.take(index as int) =~= owed);
                assert(calls.made() == owed);
                Ok(clients.len())
            },
        }
    }
}

impl Default for Broker {
    fn default() -> (broker: Self)
        ensures
            broker.wf(),
            broker@ == (BrokerView {
                routes: Map::empty(),
                seen: Map::empty(),
                capacity: DEFAULT_SEEN_ORIGINS as nat,
                commits: 0,
            }),
    {
        Broker::new()
    }
}

} // verus!
