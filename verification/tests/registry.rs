use snapshot_store::connection_registry::{ConnectionRegistry, SharedState};
use snapshot_store::ids::{TenantTimelineId, ZTenantId, ZTimelineId};

fn ttid(tenant: u128, timeline: u128) -> TenantTimelineId {
    TenantTimelineId { tenant_id: ZTenantId(tenant), timeline_id: ZTimelineId(timeline) }
}

#[test]
fn ids_go_up() {
    let mut state: SharedState<&str> = SharedState::new();
    let first = state.register(ttid(1, 1), "a");
    let second = state.register(ttid(1, 1), "b");
    let third = state.register(ttid(1, 2), "c");
    assert_eq!((first.id, second.id, third.id), (1, 2, 3));
    assert_eq!((*first.data, *second.data, *third.data), ("a", "b", "c"));
    assert_eq!(state.count(ttid(1, 1)), 2);
    assert_eq!(state.count(ttid(1, 2)), 1);
    assert_eq!(state.count(ttid(2, 1)), 0);
}

#[test]
fn id_is_not_reused_at_once() {
    let mut state: SharedState<u32> = SharedState::new();
    let first = state.register(ttid(1, 1), 0);
    state.unregister(ttid(1, 1), first.id);
    assert_eq!(state.register(ttid(1, 1), 0).id, first.id + 1);
    assert_eq!(state.issue_id(ttid(5, 5)), first.id + 2);
}

#[test]
fn unregister_undoes_register() {
    let mut state: SharedState<u32> = SharedState::new();
    let first = state.register(ttid(1, 1), 10);
    let second = state.register(ttid(1, 1), 20);
    state.unregister(ttid(1, 1), second.id);
    assert!(state.contains(ttid(1, 1), first.id));
    assert!(!state.contains(ttid(1, 1), second.id));
    assert_eq!(state.count(ttid(1, 1)), 1);
    state.unregister(ttid(1, 1), first.id);
    assert_eq!(state.count(ttid(1, 1)), 0);
}

#[test]
fn unregister_takes_one_out() {
    let mut state: SharedState<u32> = SharedState::new();
    for data in 0..5 {
        state.register(ttid(1, 1), data);
    }
    state.unregister(ttid(1, 1), 3);
    let left: Vec<u32> = (0..8).filter(|id| state.contains(ttid(1, 1), *id)).collect();
    assert_eq!(left, vec![1, 2, 4, 5]);
}

#[test]
fn other_timelines_do_not_change() {
    let mut state: SharedState<u32> = SharedState::new();
    let here = state.register(ttid(1, 1), 0);
    let there = state.register(ttid(2, 1), 0);
    state.unregister(ttid(1, 1), here.id);
    assert!(state.contains(ttid(2, 1), there.id));
    assert!(!state.contains(ttid(1, 1), there.id));
}

#[test]
fn entry_that_is_not_there() {
    let mut state: SharedState<u32> = SharedState::new();
    let entry = state.try_register(ttid(1, 1), 4).unwrap();
    assert!(!state.try_unregister(ttid(1, 2), entry.id));
    assert!(!state.try_unregister(ttid(1, 1), entry.id + 1));
    assert_eq!(state.count(ttid(1, 1)), 1);
    assert!(state.try_unregister(ttid(1, 1), entry.id));
    assert!(!state.try_unregister(ttid(1, 1), entry.id));
}

#[test]
fn entry_clone_keeps_id_and_data() {
    let mut state: SharedState<String> = SharedState::new();
    let entry = state.register(ttid(1, 1), "x".to_string());
    let copy = entry.clone();
    assert_eq!(copy.id, entry.id);
    assert_eq!(*copy.data, "x");
}

#[test]
fn guard_takes_its_entry_out() {
    let registry: ConnectionRegistry<u32> = ConnectionRegistry::new();
    let first = registry.register(ttid(1, 1), 7).unwrap();
    let second = registry.clone().register(ttid(1, 1), 8).unwrap();
    assert!(first.release());
    assert!(!first.release());
    assert!(second.release());
    assert!(!second.release());
}

#[test]
fn registries_are_apart() {
    let one: ConnectionRegistry<u32> = ConnectionRegistry::new();
    let two: ConnectionRegistry<u32> = ConnectionRegistry::new();
    let a = one.register(ttid(1, 1), 7).unwrap();
    let b = two.register(ttid(1, 1), 7).unwrap();
    assert!(a.release());
    assert!(b.release());
}

#[test]
fn entry_stays_while_others_come_and_go() {
    let mut state: SharedState<u32> = SharedState::new();
    let kept = state.try_register(ttid(1, 1), 1).unwrap();
    for data in 0..20 {
        let other = state.try_register(ttid(1, data as u128 % 3), data).unwrap();
        assert_ne!(other.id, kept.id);
        assert!(state.contains(ttid(1, 1), kept.id));
        assert!(state.try_unregister(ttid(1, data as u128 % 3), other.id));
        assert!(state.contains(ttid(1, 1), kept.id));
    }
    assert!(state.try_unregister(ttid(1, 1), kept.id));
}

#[test]
fn clones_share_one_registry() {
    // the data is no `Clone`
    let registry: ConnectionRegistry<SharedState<u8>> = ConnectionRegistry::new();
    let copy = registry.clone();
    let a = registry.register(ttid(1, 1), SharedState::new()).unwrap();
    let b = copy.register(ttid(1, 1), SharedState::new()).unwrap();
    let c = registry.register(ttid(2, 2), SharedState::new()).unwrap();
    assert_eq!((a.get_id(), b.get_id(), c.get_id()), (1, 2, 3));
    drop(registry);
    assert!(a.release());
    assert!(b.release());
    assert!(!a.release());
}

#[test]
fn ids_count_up_while_entries_go() {
    let mut state: SharedState<u32> = SharedState::new();
    for n in 1..50 {
        let entry = state.try_register(ttid(1, n as u128 % 4), n).unwrap();
        assert_eq!(entry.id, n);
        if n % 3 == 0 {
            assert!(state.try_unregister(ttid(1, n as u128 % 4), n));
        }
    }
}

#[test]
fn entries_alive_together_differ() {
    let registry: ConnectionRegistry<u32> = ConnectionRegistry::new();
    let mut alive = Vec::new();
    for n in 0..40 {
        let guard = registry.register(ttid(7, 7), n).unwrap();
        for (other, _) in &alive {
            assert_ne!(*other, guard.get_id());
        }
        alive.push((guard.get_id(), guard));
        if n % 5 == 4 {
            assert!(alive.remove(2).1.release());
        }
    }
    for (_, guard) in &alive {
        assert!(guard.release());
    }
}
