//! Allowances, rights and permissions.
use crate::error::TopicError;
use crate::event::{EventId, EventSpec};
use vstd::prelude::*;

verus! {

/// Finite allowances shared by all handles to a grant.
#[derive(Clone, Copy, Debug, PartialEq, Eq, Structural)]
pub struct Limits {
    /// Distinct streams and notification registrations.
    pub streams: usize,
    /// Descendant grants, including their reserved descendant allowance.
    pub grants: usize,
    /// Live subscriptions.
    pub subscriptions: usize,
    /// Total item allowance: event reservations plus generic transport storage.
    pub retained_items: usize,
    /// Total waiter allowance: event reservations plus transport/control waits.
    pub waiters: usize,
    /// Attached transport sessions.
    pub connections: usize,
    /// Transport-owned encoded bytes.
    pub bytes: usize,
}

/// Number of resources that [`Limits`] counts.
pub const RESOURCES: usize = 7;

impl Limits {
    /// The allowance of resource number `k`, in declaration order.
    pub open spec fn get(self, k: int) -> nat {
        if k == 0 {
            self.streams as nat
        } else if k == 1 {
            self.grants as nat
        } else if k == 2 {
            self.subscriptions as nat
        } else if k == 3 {
            self.retained_items as nat
        } else if k == 4 {
            self.waiters as nat
        } else if k == 5 {
            self.connections as nat
        } else {
            self.bytes as nat
        }
    }

    /// No resource allowance.
    pub open spec fn none() -> Limits {
        Limits {
            streams: 0,
            grants: 0,
            subscriptions: 0,
            retained_items: 0,
            waiters: 0,
            connections: 0,
            bytes: 0,
        }
    }

    /// Every resource of `self` is at most that of `cap`.
    pub open spec fn within(self, cap: Limits) -> bool {
        forall|k: int| 0 <= k < RESOURCES ==> #[trigger] self.get(k) <= cap.get(k)
    }

    /// `extra` can be added to `self` without any resource passing `cap`.
    pub open spec fn fits(self, extra: Limits, cap: Limits) -> bool {
        forall|k: int| 0 <= k < RESOURCES ==> #[trigger] self.get(k) + extra.get(k) <= cap.get(k)
    }

    /// Resource-wise sum.
    pub open spec fn plus(self, extra: Limits) -> Limits {
        Limits {
            streams: (self.streams + extra.streams) as usize,
            grants: (self.grants + extra.grants) as usize,
            subscriptions: (self.subscriptions + extra.subscriptions) as usize,
            retained_items: (self.retained_items + extra.retained_items) as usize,
            waiters: (self.waiters + extra.waiters) as usize,
            connections: (self.connections + extra.connections) as usize,
            bytes: (self.bytes + extra.bytes) as usize,
        }
    }

    /// Resource-wise difference.
    pub open spec fn minus(self, less: Limits) -> Limits {
        Limits {
            streams: (self.streams - less.streams) as usize,
            grants: (self.grants - less.grants) as usize,
            subscriptions: (self.subscriptions - less.subscriptions) as usize,
            retained_items: (self.retained_items - less.retained_items) as usize,
            waiters: (self.waiters - less.waiters) as usize,
            connections: (self.connections - less.connections) as usize,
            bytes: (self.bytes - less.bytes) as usize,
        }
    }

    /// No allowance exceeds the addressable allocation limit.
    pub open spec fn addressable(self) -> bool {
        forall|k: int| 0 <= k < RESOURCES ==> #[trigger] self.get(k) <= isize::MAX
    }

    /// No resource allowance.
    #[must_use]
    pub fn zero() -> (limits: Self)
        ensures
            limits == Limits::none(),
    {
        Limits {
            streams: 0,
            grants: 0,
            subscriptions: 0,
            retained_items: 0,
            waiters: 0,
            connections: 0,
            bytes: 0,
        }
    }

    /// Rejects capacities which cannot describe an addressable allocation.
    ///
    /// # Errors
    ///
    /// Returns [`TopicError::InvalidConfig`] if any allowance exceeds
    /// [`isize::MAX`]. Zero allowances are valid and permit no usage.
    pub fn validate(self) -> (result: Result<(), TopicError>)
        ensures
            result == if self.addressable() {
                Ok::<(), TopicError>(())
            } else {
                Err(TopicError::InvalidConfig)
            },
    {
        let values = self.values();
        let cap: usize = isize::MAX as usize;
        let mut index: usize = 0;
        while index < RESOURCES
            invariant
                index <= RESOURCES,
                cap == isize::MAX,
                values@.len() == RESOURCES,
                forall|k: int| 0 <= k < RESOURCES ==> values@[k] == #[trigger] self.get(k),
                forall|k: int| 0 <= k < index ==> #[trigger] self.get(k) <= isize::MAX,
            decreases RESOURCES - index,
        {
            if values[index] > cap {
                proof {
                    assert(self.get(index as int) > isize::MAX);
                }
                return Err(TopicError::InvalidConfig);
            }
            index += 1;
        }
        Ok(())
    }

    /// The allowances in declaration order.
    pub fn values(self) -> (values: [usize; 7])
        ensures
            forall|k: int| 0 <= k < RESOURCES ==> values@[k] == #[trigger] self.get(k),
    {
        [
            self.streams,
            self.grants,
            self.subscriptions,
            self.retained_items,
            self.waiters,
            self.connections,
            self.bytes,
        ]
    }

    /// The limits whose allowances in declaration order are `values`.
    pub fn from_values(values: [usize; 7]) -> (limits: Self)
        ensures
            forall|k: int| 0 <= k < RESOURCES ==> #[trigger] limits.get(k) == values@[k],
    {
        Limits {
            streams: values[0],
            grants: values[1],
            subscriptions: values[2],
            retained_items: values[3],
            waiters: values[4],
            connections: values[5],
            bytes: values[6],
        }
    }
}

impl Limits {
    /// The allowance of a scope that asks for none in particular.
    pub open spec fn standard() -> Limits {
        Limits {
            streams: 64,
            grants: 128,
            subscriptions: 1024,
            retained_items: 65536,
            waiters: 4096,
            connections: 64,
            bytes: 67108864,
        }
    }
}

impl Default for Limits {
    fn default() -> (limits: Self)
        ensures
            limits == Limits::standard(),
    {
        Limits {
            streams: 64,
            grants: 128,
            subscriptions: 1024,
            retained_items: 65536,
            waiters: 4096,
            connections: 64,
            bytes: 64 * 1024 * 1024,
        }
    }
}

/// Operations permitted for one event within one scope.
#[derive(Clone, Copy, Debug, PartialEq, Eq, Structural)]
pub struct Rights(u8);

impl Rights {
    /// The permitted operations, one bit each.
    pub closed spec fn bits(self) -> u8 {
        self.0
    }

    /// The set of operations with these bits.
    pub closed spec fn of_bits(bits: u8) -> Rights {
        Rights(bits)
    }

    /// Every operation of `other` is permitted.
    pub open spec fn allows(self, other: Rights) -> bool {
        self.bits() & other.bits() == other.bits()
    }

    /// Two sets of operations with the same bits are the same set.
    pub broadcast proof fn lemma_bits_injective(a: Rights, b: Rights)
        requires
            #[trigger] a.bits() == #[trigger] b.bits(),
        ensures
            a == b,
    {
    }

    /// A set of operations has the bits that it is made of.
    pub broadcast proof fn lemma_of_bits(bits: u8)
        ensures
            (#[trigger] Rights::of_bits(bits)).bits() == bits,
    {
    }

    /// A set of operations permits another exactly if it has each of its operations: what it
    /// is without one of them, it does not permit.
    pub proof fn law_allows(self, other: Rights)
        ensures
            self.allows(other) <==> forall|k: u8|
                k < 8 && other.bits() & #[trigger] (1u8 << k) != 0 ==> self.bits() & (1u8 << k)
                    != 0,
    {
        let a = self.bits();
        let b = other.bits();
        if a & b == b {
            assert forall|k: u8| k < 8 && b & #[trigger] (1u8 << k) != 0 implies a & (1u8 << k)
                != 0 by {
                assert(a & b == b && k < 8 && b & (1u8 << k) != 0 ==> a & (1u8 << k) != 0)
                    by (bit_vector);
            }
        } else {
            assert(a & b != b ==> (b & (1u8 << 0u8) != 0 && a & (1u8 << 0u8) == 0) || (b & (1u8
                << 1u8) != 0 && a & (1u8 << 1u8) == 0) || (b & (1u8 << 2u8) != 0 && a & (1u8
                << 2u8) == 0) || (b & (1u8 << 3u8) != 0 && a & (1u8 << 3u8) == 0) || (b & (1u8
                << 4u8) != 0 && a & (1u8 << 4u8) == 0) || (b & (1u8 << 5u8) != 0 && a & (1u8
                << 5u8) == 0) || (b & (1u8 << 6u8) != 0 && a & (1u8 << 6u8) == 0) || (b & (1u8
                << 7u8) != 0 && a & (1u8 << 7u8) == 0)) by (bit_vector);
        }
    }

    /// Permits no operation.
    #[must_use]
    pub fn empty() -> (rights: Self)
        ensures
            rights.bits() == 0,
            rights == Rights::of_bits(0),
    {
        Rights(0)
    }

    /// Admit payloads to the stream.
    #[must_use]
    pub fn publish() -> (rights: Self)
        ensures
            rights.bits() == 1,
            rights == Rights::of_bits(1),
    {
        Rights(1)
    }

    /// Observe the stream without imposing backpressure.
    #[must_use]
    pub fn observe() -> (rights: Self)
        ensures
            rights.bits() == 2,
            rights == Rights::of_bits(2),
    {
        Rights(2)
    }

    /// Establish a subscription that can impose backpressure.
    #[must_use]
    pub fn required() -> (rights: Self)
        ensures
            rights.bits() == 4,
            rights == Rights::of_bits(4),
    {
        Rights(4)
    }

    /// Combines permitted operations.
    #[must_use]
    pub fn union(self, other: Self) -> (rights: Self)
        ensures
            rights.bits() == self.bits() | other.bits(),
            rights == Rights::of_bits(self.bits() | other.bits()),
    {
        Rights(self.0 | other.0)
    }

    /// Tests whether every requested operation is permitted.
    #[must_use]
    pub fn contains(self, other: Self) -> (permitted: bool)
        ensures
            permitted == self.allows(other),
    {
        self.0 & other.0 == other.0
    }
}

impl std::ops::BitOr for Rights {
    type Output = Rights;

    fn bitor(self, rhs: Self) -> (rights: Rights) {
        self.union(rhs)
    }
}

impl vstd::std_specs::ops::BitOrSpecImpl for Rights {
    open spec fn obeys_bitor_spec() -> bool {
        true
    }

    open spec fn bitor_req(self, rhs: Rights) -> bool {
        true
    }

    open spec fn bitor_spec(self, rhs: Rights) -> Rights {
        Rights::of_bits(self.bits() | rhs.bits())
    }
}

impl Default for Rights {
    fn default() -> (rights: Self)
        ensures
            rights.bits() == 0,
            rights == Rights::of_bits(0),
    {
        Rights(0)
    }
}

/// Attenuation composes: what a holder of a part permits, the whole permits.
pub proof fn lemma_allows_transitive(a: Rights, b: Rights, c: Rights)
    requires
        a.allows(b),
        b.allows(c),
    ensures
        a.allows(c),
{
    let x = a.bits();
    let y = b.bits();
    let z = c.bits();
    assert(x & y == y && y & z == z ==> x & z == z) by (bit_vector);
}

/// Reserved data-plane capacity for one event inside a grant.
#[derive(Clone, Copy, Debug, PartialEq, Eq, Structural)]
pub struct StreamLimits {
    /// Publications retained by transport storage.
    pub retained_items: usize,
    /// Independent receive cursors.
    pub subscriptions: usize,
    /// Pending publications and receives.
    pub waiters: usize,
}

impl StreamLimits {
    /// At most one resource is asked for.
    pub open spec fn single(self) -> bool {
        ||| self.retained_items == 0 && self.subscriptions == 0
        ||| self.retained_items == 0 && self.waiters == 0
        ||| self.subscriptions == 0 && self.waiters == 0
    }

    /// The same capacity as an allowance over all resources.
    pub open spec fn widened(self) -> Limits {
        Limits {
            retained_items: self.retained_items,
            subscriptions: self.subscriptions,
            waiters: self.waiters,
            ..Limits::none()
        }
    }

    /// No data-plane capacity.
    #[must_use]
    pub fn zero() -> (limits: Self)
        ensures
            limits == (StreamLimits { retained_items: 0, subscriptions: 0, waiters: 0 }),
    {
        StreamLimits { retained_items: 0, subscriptions: 0, waiters: 0 }
    }

    /// The same capacity as an allowance over all resources.
    pub fn as_limits(self) -> (limits: Limits)
        ensures
            limits == self.widened(),
    {
        Limits {
            streams: 0,
            grants: 0,
            subscriptions: self.subscriptions,
            retained_items: self.retained_items,
            waiters: self.waiters,
            connections: 0,
            bytes: 0,
        }
    }
}

impl Default for StreamLimits {
    fn default() -> (limits: Self)
        ensures
            limits == (StreamLimits { retained_items: 0, subscriptions: 0, waiters: 0 }),
    {
        StreamLimits { retained_items: 0, subscriptions: 0, waiters: 0 }
    }
}

/// An event-specific permission requested when deriving a grant.
#[derive(Clone, Copy, Debug, PartialEq, Eq, Structural)]
pub struct Permission {
    /// Event identity, resolved only inside this grant's scope.
    pub event: EventId,
    /// Permitted operations.
    pub rights: Rights,
    /// Capacity reserved for this event, never borrowed by another event.
    pub limits: StreamLimits,
}

impl Permission {
    /// Requests operations with zero capacity. Use [`Self::with_limits`] to reserve it.
    #[must_use]
    pub fn new<E: EventSpec>(rights: Rights) -> (permission: Self)
        ensures
            permission == (Permission {
                event: E::ID,
                rights,
                limits: StreamLimits { retained_items: 0, subscriptions: 0, waiters: 0 },
            }),
    {
        Permission { event: E::ID, rights, limits: StreamLimits::zero() }
    }

    /// Reserves event capacity within the grant's total [`Limits`].
    #[must_use]
    pub fn with_limits(self, limits: StreamLimits) -> (permission: Self)
        ensures
            permission == (Permission { limits, ..self }),
    {
        Permission { event: self.event, rights: self.rights, limits }
    }
}

/// Some permission in `permissions` names `event`.
pub open spec fn mentions(permissions: Seq<Permission>, event: EventId) -> bool {
    exists|j: int| 0 <= j < permissions.len() && #[trigger] permissions[j].event == event
}

/// What the permissions reserve of resource `k`, each event counted once.
pub open spec fn reserved(permissions: Seq<Permission>, k: int) -> nat
    decreases permissions.len(),
{
    if permissions.len() == 0 {
        0
    } else if mentions(permissions.drop_last(), permissions.last().event) {
        reserved(permissions.drop_last(), k)
    } else {
        reserved(permissions.drop_last(), k) + permissions.last().limits.widened().get(k)
    }
}

/// The event reservations of `permissions` stay within `limits`.
pub open spec fn reserves_within(permissions: Seq<Permission>, limits: Limits) -> bool {
    forall|k: int| 0 <= k < RESOURCES ==> #[trigger] reserved(permissions, k) <= limits.get(k)
}

/// Some permission for the event of `permission` asks for another capacity.
pub open spec fn conflicts(permissions: Seq<Permission>, permission: Permission) -> bool {
    exists|j: int|
        0 <= j < permissions.len() && #[trigger] permissions[j].event == permission.event
            && permissions[j].limits != permission.limits
}

/// Why `permissions` cannot be carved out of `limits`, if they cannot: the first
/// permission that conflicts with an earlier one, or whose reservation passes the
/// total, decides.
pub open spec fn partition_error(limits: Limits, permissions: Seq<Permission>) -> Option<TopicError>
    decreases permissions.len(),
{
    if permissions.len() == 0 {
        None
    } else {
        let earlier = permissions.drop_last();
        match partition_error(limits, earlier) {
            Some(error) => Some(error),
            None => if conflicts(earlier, permissions.last()) {
                Some(TopicError::InvalidConfig)
            } else if reserves_within(permissions, limits) {
                None
            } else {
                Some(TopicError::Capacity)
            },
        }
    }
}

/// Permissions that can be partitioned ask for one capacity per event.
pub proof fn lemma_partition_consistent(limits: Limits, permissions: Seq<Permission>)
    requires
        partition_error(limits, permissions) is None,
    ensures
        forall|i: int, j: int|
            0 <= i < permissions.len() && 0 <= j < permissions.len()
                && #[trigger] permissions[i].event == #[trigger] permissions[j].event
                ==> permissions[i].limits == permissions[j].limits,
    decreases permissions.len(),
{
    if permissions.len() > 0 {
        let earlier = permissions.drop_last();
        lemma_partition_consistent(limits, earlier);
        assert forall|i: int, j: int|
            0 <= i < permissions.len() && 0 <= j < permissions.len()
                && #[trigger] permissions[i].event == #[trigger] permissions[j].event implies
            permissions[i].limits == permissions[j].limits by {
            if i < earlier.len() {
                assert(earlier[i] == permissions[i]);
            }
            if j < earlier.len() {
                assert(earlier[j] == permissions[j]);
            }
        }
    }
}

/// Splits `limits` into the event reservations of `permissions` and a generic
/// remainder, which is returned.
///
/// # Errors
///
/// Returns [`TopicError::InvalidConfig`] for conflicting duplicate reservations and
/// [`TopicError::Capacity`] when the reservations pass the total.
pub fn partition(limits: Limits, permissions: &[Permission]) -> (result: Result<Limits, TopicError>)
    ensures
        match partition_error(limits, permissions@) {
            Some(error) => result == Err::<Limits, TopicError>(error),
            None => {
                &&& result is Ok
                &&& forall|k: int|
                    0 <= k < RESOURCES ==> #[trigger] result->Ok_0.get(k) == limits.get(k)
                        - reserved(permissions@, k)
            },
        },
{
    let mut generic = limits;
    let mut index: usize = 0;
    while index < permissions.len()
        invariant
            index <= permissions@.len(),
            partition_error(limits, permissions@.take(index as int)) is None,
            forall|k: int|
                0 <= k < RESOURCES ==> #[trigger] generic.get(k) + reserved(
                    permissions@.take(index as int),
                    k,
                ) == limits.get(k),
        decreases permissions@.len() - index,
    {
        let permission = permissions[index];
        let ghost earlier = permissions@.take(index as int);
        let ghost upto = permissions@.take(index + 1);
        proof {
            assert(upto.drop_last() =~= earlier);
            assert(upto.last() == permission);
        }
        let mut seen = false;
        let mut other: usize = 0;
        while other < index
            invariant
                other <= index <= permissions@.len(),
                earlier == permissions@.take(index as int),
                seen == exists|j: int|
                    0 <= j < other && #[trigger] permissions@[j].event == permission.event,
                forall|j: int|
                    0 <= j < other && #[trigger] permissions@[j].event == permission.event
                        ==> permissions@[j].limits == permission.limits,
                partition_error(limits, earlier) is None,
                upto == permissions@.take(index + 1),
                upto.drop_last() == earlier,
                upto.last() == permission,
                upto.len() == index + 1,
                index < permissions@.len(),
            decreases index - other,
        {
            let previous = permissions[other];
            if previous.event == permission.event {
                if previous.limits != permission.limits {
                    proof {
                        assert(earlier[other as int] == previous);
                        assert(conflicts(earlier, permission));
                        assert(partition_error(limits, upto) == Some(TopicError::InvalidConfig));
                        lemma_partition_error_prefix(limits, permissions@, index + 1);
                    }
                    return Err(TopicError::InvalidConfig);
                }
                seen = true;
            }
            other += 1;
        }
        proof {
            assert(!conflicts(earlier, permission));
            if seen {
                let j = choose|j: int|
                    0 <= j < index && #[trigger] permissions@[j].event == permission.event;
                assert(earlier[j].event == permission.event);
            } else {
                assert forall|j: int| 0 <= j < earlier.len() implies #[trigger] earlier[j].event
                    != permission.event by {
                    assert(permissions@[j] == earlier[j]);
                }
            }
            assert(seen == mentions(earlier, permission.event));
        }
        if seen {
            proof {
                assert forall|k: int| 0 <= k < RESOURCES implies #[trigger] reserved(upto, k)
                    <= limits.get(k) by {
                    assert(generic.get(k) + reserved(earlier, k) == limits.get(k));
                }
            }
        } else {
            let items = permission.limits;
            if generic.retained_items < items.retained_items || generic.subscriptions
                < items.subscriptions || generic.waiters < items.waiters {
                proof {
                    let k: int = if generic.retained_items < items.retained_items {
                        3
                    } else if generic.subscriptions < items.subscriptions {
                        2
                    } else {
                        4
                    };
                    assert(generic.get(k) < items.widened().get(k));
                    assert(generic.get(k) + reserved(earlier, k) == limits.get(k));
                    assert(reserved(upto, k) > limits.get(k));
                    assert(partition_error(limits, upto) == Some(TopicError::Capacity));
                    lemma_partition_error_prefix(limits, permissions@, index + 1);
                }
                return Err(TopicError::Capacity);
            }
            let ghost before = generic;
            generic.retained_items = generic.retained_items - items.retained_items;
            generic.subscriptions = generic.subscriptions - items.subscriptions;
            generic.waiters = generic.waiters - items.waiters;
            proof {
                assert forall|k: int| 0 <= k < RESOURCES implies #[trigger] generic.get(k)
                    + reserved(upto, k) == limits.get(k) by {
                    assert(before.get(k) + reserved(earlier, k) == limits.get(k));
                    assert(generic.get(k) == before.get(k) - items.widened().get(k));
                }
                assert forall|k: int| 0 <= k < RESOURCES implies #[trigger] reserved(upto, k)
                    <= limits.get(k) by {
                    assert(generic.get(k) + reserved(upto, k) == limits.get(k));
                }
            }
        }
        index += 1;
    }
    proof {
        assert(permissions@.take(index as int) =~= permissions@);
    }
    Ok(generic)
}

/// An error in a prefix decides the whole list.
proof fn lemma_partition_error_prefix(limits: Limits, permissions: Seq<Permission>, n: int)
    requires
        0 <= n <= permissions.len(),
        partition_error(limits, permissions.take(n)) is Some,
    ensures
        partition_error(limits, permissions) == partition_error(limits, permissions.take(n)),
    decreases permissions.len() - n,
{
    if n < permissions.len() {
        assert(permissions.take(n + 1).drop_last() =~= permissions.take(n));
        lemma_partition_error_prefix(limits, permissions, n + 1);
    } else {
        assert(permissions.take(n) =~= permissions);
    }
}

/// The union of two sets of operations is the least that permits both.
pub proof fn law_union(a: Rights, b: Rights, c: Rights)
    ensures
        ({
            let union = vstd::std_specs::ops::BitOrSpec::bitor_spec(a, b);
            c.allows(union) <==> c.allows(a) && c.allows(b)
        }),
{
    let (x, y, z) = (a.bits(), b.bits(), c.bits());
    assert(z & (x | y) == x | y <==> z & x == x && z & y == y) by (bit_vector);
}

} // verus!
