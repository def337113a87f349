use hiway::error::TopicError;
use hiway::event::EventId;
use hiway::grant::{Limits, Permission, Rights, StreamLimits};
use hiway::ledger::{Grant, Lease, Ledger, Revocation};
use hiway::ledger_model::Signal;

fn event() -> EventId {
    EventId::from_name("tests.grant.event")
}

fn other() -> EventId {
    EventId::from_name("tests.grant.other")
}

fn permission(rights: Rights) -> Permission {
    Permission {
        event: event(),
        rights,
        limits: StreamLimits::zero(),
    }
}

fn items(retained_items: usize) -> Limits {
    Limits {
        retained_items,
        ..Limits::zero()
    }
}

#[test]
fn attenuation_shares_reservations_until_the_last_child_owner_drops() {
    let (mut ledger, root) = Ledger::new(Limits {
        streams: 2,
        grants: 1,
        retained_items: 3,
        ..Limits::zero()
    });
    let child_limits = Limits {
        streams: 1,
        retained_items: 2,
        ..Limits::zero()
    };
    let child = ledger
        .restrict(&root, &[permission(Rights::observe())], child_limits)
        .unwrap();
    assert_eq!(ledger.check(&child, event(), Rights::observe()), Ok(()));
    assert_eq!(
        ledger.check(&child, event(), Rights::publish()),
        Err(TopicError::Denied)
    );
    assert_eq!(
        ledger.check(&child, other(), Rights::observe()),
        Err(TopicError::Denied)
    );
    assert!(matches!(
        ledger.restrict(&child, &[permission(Rights::publish())], child_limits),
        Err(TopicError::Denied)
    ));
    let clone = ledger.clone_grant(&child);
    ledger.drop_grant(child);
    assert_eq!(ledger.usage(&root).retained_items, 2);
    assert!(matches!(
        ledger.try_charge(&root, items(2)),
        Err(TopicError::Capacity)
    ));
    let item = ledger.try_charge(&root, items(1)).unwrap();
    assert_eq!(ledger.usage(&root).retained_items, 3);
    ledger.drop_grant(clone);
    assert_eq!(ledger.usage(&root).grants, 0);
    assert_eq!(ledger.usage(&root).streams, 0);
    assert_eq!(ledger.usage(&root).retained_items, 1);
    ledger.release(item);
    assert_eq!(ledger.usage(&root), Limits::zero());
}

#[test]
fn empty_grants_still_consume_depth_and_node_allowance() {
    let (mut ledger, root) = Ledger::new(Limits {
        grants: 2,
        ..Limits::zero()
    });
    let child = ledger
        .restrict(
            &root,
            &[],
            Limits {
                grants: 1,
                ..Limits::zero()
            },
        )
        .unwrap();
    let grandchild = ledger.restrict(&child, &[], Limits::zero()).unwrap();
    assert!(matches!(
        ledger.restrict(&grandchild, &[], Limits::zero()),
        Err(TopicError::Capacity)
    ));
    assert!(matches!(
        ledger.restrict(&root, &[], Limits::zero()),
        Err(TopicError::Capacity)
    ));
    ledger.drop_grant(child);
    assert_eq!(ledger.usage(&root).grants, 2);
    ledger.drop_grant(grandchild);
    assert_eq!(ledger.usage(&root).grants, 0);
}

#[test]
fn duplicate_permissions_combine_without_expanding_parent_authority() {
    let (mut ledger, root) = Ledger::new(Limits {
        streams: 2,
        grants: 1,
        ..Limits::zero()
    });
    let child = ledger
        .restrict(
            &root,
            &[permission(Rights::publish()), permission(Rights::observe())],
            Limits {
                streams: 2,
                ..Limits::zero()
            },
        )
        .unwrap();
    assert_eq!(
        ledger.check(&child, event(), Rights::publish() | Rights::observe()),
        Ok(())
    );
    assert_eq!(
        ledger.check(&child, event(), Rights::required()),
        Err(TopicError::Denied)
    );
}

#[test]
fn failed_multi_resource_charge_returns_every_partial_reservation() {
    let (mut ledger, root) = Ledger::new(Limits {
        retained_items: 1,
        bytes: 3,
        ..Limits::zero()
    });
    let bytes = ledger
        .try_charge(
            &root,
            Limits {
                bytes: 3,
                ..Limits::zero()
            },
        )
        .unwrap();
    assert!(matches!(
        ledger.try_charge(
            &root,
            Limits {
                retained_items: 1,
                bytes: 1,
                ..Limits::zero()
            }
        ),
        Err(TopicError::Capacity)
    ));
    assert_eq!(
        ledger.usage(&root),
        Limits {
            bytes: 3,
            ..Limits::zero()
        }
    );
    let item = ledger.try_charge(&root, items(1)).unwrap();
    ledger.release(bytes);
    ledger.release(item);
    assert_eq!(ledger.usage(&root), Limits::zero());
    assert_eq!(
        Limits {
            bytes: usize::MAX,
            ..Limits::zero()
        }
        .validate(),
        Err(TopicError::InvalidConfig)
    );
}

#[test]
fn ledger_matches_exhaustive_small_capacity_sequences() {
    fn explore(
        ledger: &mut Ledger,
        node: &Grant,
        held: &mut Vec<Lease>,
        used: usize,
        depth: usize,
    ) {
        assert_eq!(ledger.usage(node).retained_items, used);
        if depth == 0 {
            return;
        }
        for amount in 0..=3 {
            let result = ledger.try_charge(node, items(amount));
            if used + amount <= 2 {
                held.push(result.unwrap());
                explore(ledger, node, held, used + amount, depth - 1);
                ledger.release(held.pop().unwrap());
            } else {
                assert!(matches!(result, Err(TopicError::Capacity)));
            }
            assert_eq!(ledger.usage(node).retained_items, used);
        }
    }
    let (mut ledger, root) = Ledger::new(items(2));
    explore(&mut ledger, &root, &mut Vec::new(), 0, 5);
    assert_eq!(ledger.usage(&root), Limits::zero());
}

#[test]
fn event_and_generic_pools_match_a_conservation_model_under_delegation() {
    enum Held {
        Item(Lease),
        Child(Grant),
    }
    fn explore(ledger: &mut Ledger, node: &Grant, used: [usize; 3], children: usize, depth: usize) {
        assert_eq!(ledger.usage(node).retained_items, used.iter().sum());
        assert_eq!(ledger.usage(node).grants, children);
        if depth == 0 {
            return;
        }
        for pool in 0..3 {
            for amount in 0..=3 {
                for delegate in [false, true] {
                    let event = [event(), other(), event()][pool];
                    let data = StreamLimits {
                        retained_items: amount,
                        ..StreamLimits::zero()
                    };
                    let expected =
                        used[pool] + amount <= [2, 2, 1][pool] && (!delegate || children < 2);
                    let result = if delegate {
                        let permissions = [Permission {
                            event,
                            rights: Rights::publish(),
                            limits: data,
                        }];
                        ledger
                            .restrict(
                                node,
                                if pool == 2 { &[] } else { &permissions },
                                Limits {
                                    streams: 1,
                                    retained_items: amount,
                                    ..Limits::zero()
                                },
                            )
                            .map(Held::Child)
                    } else if pool == 2 {
                        ledger.try_charge(node, data.as_limits()).map(Held::Item)
                    } else {
                        ledger.try_charge_stream(node, event, data).map(Held::Item)
                    };
                    if expected {
                        let held = match result {
                            Ok(held) => held,
                            Err(error) => panic!("{error:?}"),
                        };
                        let mut next = used;
                        next[pool] += amount;
                        explore(ledger, node, next, children + usize::from(delegate), depth - 1);
                        match held {
                            Held::Item(lease) => ledger.release(lease),
                            Held::Child(child) => ledger.drop_grant(child),
                        }
                    } else {
                        assert!(matches!(result, Err(TopicError::Capacity)));
                    }
                    assert_eq!(ledger.usage(node).retained_items, used.iter().sum());
                    assert_eq!(ledger.usage(node).grants, children);
                }
            }
        }
    }
    let (mut ledger, root) = Ledger::new(Limits {
        streams: 2,
        grants: 3,
        retained_items: 5,
        ..Limits::zero()
    });
    let data = StreamLimits {
        retained_items: 2,
        ..StreamLimits::zero()
    };
    let node = ledger
        .restrict(
            &root,
            &[
                permission(Rights::publish()).with_limits(data),
                Permission {
                    event: other(),
                    rights: Rights::publish(),
                    limits: data,
                },
            ],
            Limits {
                streams: 2,
                grants: 2,
                retained_items: 5,
                ..Limits::zero()
            },
        )
        .unwrap();
    explore(&mut ledger, &node, [0; 3], 0, 3);
    assert_eq!(ledger.usage(&node), Limits::zero());
    ledger.drop_grant(node);
    assert_eq!(ledger.usage(&root), Limits::zero());
}

#[test]
fn conflicting_duplicate_partitions_and_oversized_totals_fail_without_reservations() {
    let (mut ledger, root) = Ledger::new(Limits {
        streams: 2,
        grants: 1,
        retained_items: 2,
        ..Limits::zero()
    });
    let single = permission(Rights::publish()).with_limits(StreamLimits {
        retained_items: 1,
        ..StreamLimits::zero()
    });
    let double = single.with_limits(StreamLimits {
        retained_items: 2,
        ..StreamLimits::zero()
    });
    let total = Limits {
        streams: 2,
        retained_items: 2,
        ..Limits::zero()
    };
    assert!(matches!(
        ledger.restrict(&root, &[single, double], total),
        Err(TopicError::InvalidConfig)
    ));
    assert_eq!(ledger.usage(&root), Limits::zero());
    assert!(matches!(
        ledger.restrict(
            &root,
            &[double],
            Limits {
                retained_items: 1,
                ..total
            }
        ),
        Err(TopicError::Capacity)
    ));
    assert_eq!(ledger.usage(&root), Limits::zero());
    let child = ledger.restrict(&root, &[double, double], total).unwrap();
    assert_eq!(ledger.usage(&root).retained_items, 2);
    let held = ledger
        .try_charge_stream(
            &child,
            event(),
            StreamLimits {
                retained_items: 2,
                ..StreamLimits::zero()
            },
        )
        .unwrap();
    assert!(matches!(
        ledger.try_charge_stream(
            &child,
            event(),
            StreamLimits {
                retained_items: 1,
                ..StreamLimits::zero()
            }
        ),
        Err(TopicError::Capacity)
    ));
    ledger.release(held);
    ledger.drop_grant(child);
    assert_eq!(ledger.usage(&root), Limits::zero());
}

#[test]
fn revocation_waits_for_descendant_admission_and_does_not_mint_credits() {
    let (mut ledger, root) = Ledger::new(Limits {
        streams: 1,
        grants: 1,
        ..Limits::zero()
    });
    let child = ledger
        .restrict(
            &root,
            &[permission(Rights::publish())],
            Limits {
                streams: 1,
                ..Limits::zero()
            },
        )
        .unwrap();
    let operation = ledger
        .enter(&child, event(), Rights::publish(), true)
        .unwrap();
    assert_eq!(ledger.begin_revocation(&root), Ok(Revocation::Pending));
    assert!(!ledger.settle_revocation(&root));
    assert!(ledger.is_revoked(&child));
    assert_eq!(
        ledger.check(&child, event(), Rights::publish()),
        Err(TopicError::Revoked)
    );
    assert!(matches!(
        ledger.restrict(&root, &[], Limits::zero()),
        Err(TopicError::Revoked)
    ));
    assert_eq!(ledger.begin_revocation(&root), Err(TopicError::Capacity));
    let _ = ledger.take_signals();
    ledger.leave(operation);
    assert!(!ledger.take_signals().is_empty());
    assert!(ledger.settle_revocation(&root));
    ledger.end_revocation(&root);
    assert_eq!(ledger.begin_revocation(&root), Ok(Revocation::Complete));
    assert_eq!(ledger.usage(&root).grants, 1);
    ledger.drop_grant(child);
    assert_eq!(ledger.usage(&root).grants, 0);
}

#[test]
fn cancelling_revocation_preserves_cutoff_and_releases_its_control_waiter() {
    let (mut ledger, root) = Ledger::new(Limits::zero());
    let operation = ledger
        .enter(&root, event(), Rights::publish(), true)
        .unwrap();
    assert_eq!(ledger.begin_revocation(&root), Ok(Revocation::Pending));
    assert!(!ledger.settle_revocation(&root));
    ledger.end_revocation(&root);
    assert!(ledger.is_revoked(&root));
    assert_eq!(ledger.begin_revocation(&root), Ok(Revocation::Pending));
    assert!(!ledger.settle_revocation(&root));
    ledger.leave(operation);
    assert!(ledger.settle_revocation(&root));
}

#[test]
fn released_credits_wake_only_the_matching_stream_and_registration_is_bounded() {
    let allowance = StreamLimits {
        retained_items: 1,
        ..StreamLimits::zero()
    };
    let (mut ledger, root) = Ledger::new(Limits {
        streams: 2,
        grants: 1,
        retained_items: 3,
        ..Limits::zero()
    });
    let node = ledger
        .restrict(
            &root,
            &[
                permission(Rights::publish()).with_limits(allowance),
                Permission {
                    event: other(),
                    rights: Rights::publish(),
                    limits: allowance,
                },
            ],
            Limits {
                streams: 2,
                retained_items: 3,
                ..Limits::zero()
            },
        )
        .unwrap();
    let (first, second, third) = (1, 2, 3);
    ledger.register_stream(&node, event(), first).unwrap();
    ledger.register_stream(&node, event(), first).unwrap();
    ledger.register_stream(&node, other(), second).unwrap();
    assert_eq!(
        ledger.register_stream(&node, event(), third),
        Err(TopicError::Capacity)
    );
    let lease = ledger.try_charge_stream(&node, event(), allowance).unwrap();
    let _ = ledger.take_signals();
    assert!(matches!(
        ledger.try_charge_stream(&node, event(), allowance),
        Err(TopicError::Capacity)
    ));
    let generic = ledger.try_charge(&node, items(1)).unwrap();
    ledger.release(generic);
    let signals = ledger.take_signals();
    assert!(!signals.contains(&Signal::Listener(first)));
    assert!(!signals.contains(&Signal::Listener(second)));
    ledger.release(lease);
    let signals = ledger.take_signals();
    assert!(signals.contains(&Signal::Listener(first)));
    assert!(!signals.contains(&Signal::Listener(second)));
    ledger.retire_listener(first);
    ledger.register_stream(&node, event(), third).unwrap();
}

#[test]
fn revocation_listeners_ignore_accounting_and_wake_for_the_subtree_cutoff() {
    fn revoked(signals: &[Signal]) -> usize {
        signals
            .iter()
            .filter(|signal| matches!(signal, Signal::Revoked(_)))
            .count()
    }
    let (mut ledger, root) = Ledger::new(Limits {
        grants: 1,
        retained_items: 1,
        ..Limits::zero()
    });
    let child = ledger.restrict(&root, &[], Limits::zero()).unwrap();
    let _ = ledger.take_signals();

    let operation = ledger
        .enter(&root, event(), Rights::publish(), true)
        .unwrap();
    ledger.leave(operation);
    let lease = ledger.try_charge(&root, items(1)).unwrap();
    ledger.release(lease);
    assert_eq!(revoked(&ledger.take_signals()), 0);

    assert_eq!(ledger.begin_revocation(&root), Ok(Revocation::Pending));
    assert!(ledger.settle_revocation(&root));
    assert_eq!(revoked(&ledger.take_signals()), 2);
    assert!(ledger.is_revoked(&root));
    assert!(ledger.is_revoked(&child));
}

#[test]
fn a_revoked_subtree_stays_cut_off_whatever_follows() {
    let (mut ledger, root) = Ledger::new(Limits {
        streams: 4,
        grants: 3,
        retained_items: 3,
        ..Limits::zero()
    });
    let publish = [permission(Rights::publish())];
    let leaf = Limits {
        streams: 1,
        ..items(1)
    };
    let child = ledger
        .restrict(
            &root,
            &publish,
            Limits {
                streams: 2,
                grants: 1,
                retained_items: 1,
                ..Limits::zero()
            },
        )
        .unwrap();
    let grandchild = ledger.restrict(&child, &publish, leaf).unwrap();
    let sibling = ledger.restrict(&root, &publish, leaf).unwrap();
    let lease = ledger.try_charge(&grandchild, items(1)).unwrap();
    let operation = ledger
        .enter(&grandchild, event(), Rights::publish(), true)
        .unwrap();

    assert_eq!(ledger.begin_revocation(&child), Ok(Revocation::Pending));
    let cut_off = |ledger: &Ledger| {
        for grant in [&child, &grandchild] {
            assert!(ledger.is_revoked(grant));
            assert_eq!(
                ledger.check(grant, event(), Rights::publish()),
                Err(TopicError::Revoked)
            );
        }
        assert!(!ledger.is_revoked(&root));
        assert!(!ledger.is_revoked(&sibling));
    };
    cut_off(&ledger);
    assert_eq!(ledger.usage(&grandchild).retained_items, 1);
    assert_eq!(ledger.usage(&child).grants, 1);

    let charge = ledger.try_charge(&sibling, items(1)).unwrap();
    let other = ledger.clone_grant(&grandchild);
    ledger.release(charge);
    ledger.drop_grant(other);
    cut_off(&ledger);
    assert!(!ledger.settle_revocation(&child));

    ledger.leave(operation);
    assert!(ledger.settle_revocation(&child));
    ledger.end_revocation(&child);
    cut_off(&ledger);
    assert_eq!(ledger.begin_revocation(&child), Ok(Revocation::Complete));

    ledger.release(lease);
    cut_off(&ledger);
    assert_eq!(ledger.usage(&grandchild).retained_items, 0);
    ledger.drop_grant(grandchild);
    assert_eq!(ledger.usage(&child).grants, 0);
    assert!(ledger.is_revoked(&child));
}

#[test]
fn refused_charges_return_what_they_took_and_say_so() {
    let (mut ledger, root) = Ledger::new(Limits {
        streams: 4,
        grants: 2,
        subscriptions: 1,
        retained_items: 4,
        ..Limits::zero()
    });
    let partly = Limits {
        subscriptions: 1,
        retained_items: 5,
        ..Limits::zero()
    };
    assert_eq!(ledger.try_charge(&root, items(5)).err(), Some(TopicError::Capacity));
    assert!(ledger.take_signals().is_empty());
    assert_eq!(ledger.try_charge(&root, partly).err(), Some(TopicError::Capacity));
    assert_eq!(ledger.take_signals(), [Signal::Changed(0)]);
    assert_eq!(ledger.usage(&root), Limits::zero());

    let child = ledger
        .restrict(
            &root,
            &[
                Permission {
                    limits: StreamLimits {
                        retained_items: 2,
                        ..StreamLimits::zero()
                    },
                    ..permission(Rights::observe())
                },
                Permission {
                    event: other(),
                    ..permission(Rights::observe())
                },
            ],
            Limits {
                streams: 2,
                grants: 1,
                retained_items: 2,
                ..Limits::zero()
            },
        )
        .unwrap();
    let _ = ledger.take_signals();
    let used = ledger.usage(&child);
    let refused = ledger.restrict(
        &child,
        &[
            Permission {
                limits: StreamLimits {
                    retained_items: 1,
                    ..StreamLimits::zero()
                },
                ..permission(Rights::observe())
            },
            Permission {
                event: other(),
                limits: StreamLimits {
                    retained_items: 1,
                    ..StreamLimits::zero()
                },
                ..permission(Rights::observe())
            },
        ],
        Limits {
            streams: 2,
            retained_items: 2,
            ..Limits::zero()
        },
    );
    assert_eq!(refused.err(), Some(TopicError::Capacity));
    assert_eq!(ledger.usage(&child), used);
    let signals = ledger.take_signals();
    assert!(!signals.is_empty());
    assert!(signals.iter().all(|signal| *signal == Signal::Changed(1)));
}
