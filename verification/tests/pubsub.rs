use bommer::pubsub::{Event, State, Subscription, CHANNEL_CAPACITY};
use std::collections::HashMap;

fn restart_map(e: &Event) -> HashMap<u64, u64> {
    match e {
        Event::Restart(m) => m.clone(),
        _ => panic!("expected a Restart event"),
    }
}

#[test]
fn snapshot_on_subscribe_empty() {
    let mut s = State::default();
    let sub = s.subscribe();
    let first = s.recv(sub.id()).expect("a snapshot must be queued");
    assert!(restart_map(&first).is_empty());
    assert!(s.recv(sub.id()).is_none());
}

#[test]
fn snapshot_matches_get_state() {
    let mut s = State::default();
    let mut m = HashMap::new();
    m.insert(1u64, 10u64);
    m.insert(2u64, 20u64);
    s.set_state(m);
    let sub = s.subscribe();
    let first = s.recv(sub.id()).expect("a snapshot must be queued");
    assert_eq!(restart_map(&first), s.get_state());
}

#[test]
fn add_modify_remove_events() {
    let mut s = State::default();
    let sub = s.subscribe();
    s.recv(sub.id()).expect("snapshot");

    s.mutate_state(1, |_| Some(5));
    assert!(matches!(s.recv(sub.id()), Some(Event::Added(1, 5))));
    assert_eq!(s.get_state().get(&1), Some(&5));

    s.mutate_state(1, |_| Some(7));
    assert!(matches!(s.recv(sub.id()), Some(Event::Modified(1, 7))));
    assert_eq!(s.get_state().get(&1), Some(&7));

    s.mutate_state(1, |_| None);
    assert!(matches!(s.recv(sub.id()), Some(Event::Removed(1))));
    assert!(s.get_state().is_empty());
}

#[test]
fn noop_mutation_is_suppressed() {
    let mut s = State::default();
    s.mutate_state(1, |_| Some(5));
    let sub = s.subscribe();
    s.recv(sub.id()).expect("snapshot");

    s.mutate_state(1, |cur| cur);
    assert!(s.recv(sub.id()).is_none());
    assert_eq!(s.get_state().get(&1), Some(&5));

    s.mutate_state(2, |_| None);
    assert!(s.recv(sub.id()).is_none());
    assert_eq!(s.get_state().len(), 1);
}

#[test]
fn events_reconstruct_final_state() {
    let mut s = State::default();
    s.mutate_state(1, |_| Some(1));
    let sub = s.subscribe();

    s.mutate_state(2, |_| Some(2));
    s.mutate_state(1, |_| Some(11));
    let mut whole = HashMap::new();
    whole.insert(7u64, 70u64);
    whole.insert(8u64, 80u64);
    s.set_state(whole);
    s.mutate_state(8, |_| None);
    s.mutate_state(9, |_| Some(90));

    let mut mirror: HashMap<u64, u64> = HashMap::new();
    while let Some(e) = s.recv(sub.id()) {
        e.apply_to(&mut mirror);
    }
    assert_eq!(mirror, s.get_state());
}

#[test]
fn lagging_subscriber_reconstructs_after_draining() {
    let mut s = State::default();
    let a = s.subscribe();
    let b = s.subscribe();
    for k in 0..5u64 {
        s.mutate_state(k, |_| Some(k * 2));
    }
    let mut ma = HashMap::new();
    while let Some(e) = s.recv(a.id()) {
        e.apply_to(&mut ma);
    }
    assert_eq!(ma, s.get_state());

    s.mutate_state(9, |_| Some(9));
    // b lagged the whole time, but stayed under capacity, so draining
    // now still reconstructs the exact current mapping.
    let mut mb = HashMap::new();
    while let Some(e) = s.recv(b.id()) {
        e.apply_to(&mut mb);
    }
    assert_eq!(mb, s.get_state());
}

#[test]
fn unsubscribe_stops_delivery_and_is_idempotent() {
    let mut s = State::default();
    let sub = s.subscribe();
    s.unsubscribe(sub.id());
    s.unsubscribe(sub.id());
    assert!(s.recv(sub.id()).is_none());

    s.mutate_state(1, |_| Some(5));
    assert!(s.recv(sub.id()).is_none());
    assert_eq!(s.get_state().get(&1), Some(&5));
}

#[test]
fn two_subscribers_get_distinct_ids_and_both_receive() {
    let mut s = State::default();
    let a = s.subscribe();
    let b = s.subscribe();
    assert_ne!(a.id(), b.id());

    s.recv(a.id()).expect("snapshot for a");
    s.recv(b.id()).expect("snapshot for b");
    s.mutate_state(3, |_| Some(30));
    assert!(matches!(s.recv(a.id()), Some(Event::Added(3, 30))));
    assert!(matches!(s.recv(b.id()), Some(Event::Added(3, 30))));
}

#[test]
fn full_scenario() {
    // An empty store; subscriber A sees the snapshot, a whole-state
    // replacement, a modification and a removal, in order.
    let mut s = State::default();
    let a = s.subscribe();
    assert!(restart_map(&s.recv(a.id()).unwrap()).is_empty());

    let mut m = HashMap::new();
    m.insert(1u64, 1u64);
    s.set_state(m.clone());
    assert_eq!(restart_map(&s.recv(a.id()).unwrap()), m);

    s.mutate_state(1, |_| Some(2));
    assert!(matches!(s.recv(a.id()), Some(Event::Modified(1, 2))));
    assert_eq!(s.get_state().get(&1), Some(&2));

    s.mutate_state(1, |_| None);
    assert!(matches!(s.recv(a.id()), Some(Event::Removed(1))));
    assert!(s.get_state().is_empty());
}

#[test]
fn backpressure_drops_only_the_lagging_subscriber() {
    let mut s = State::default();
    let b = s.subscribe();

    // The snapshot occupies one slot; fill the rest of b's queue.
    let spare = (CHANNEL_CAPACITY - 1) as u64;
    for k in 0..spare {
        s.mutate_state(k, |_| Some(k));
    }
    // One event more than b's queue can hold: delivery fails and b is
    // dropped from the registry, with its backlog.
    s.mutate_state(spare, |_| Some(spare));

    assert!(s.recv(b.id()).is_none());
    assert_eq!(s.get_state().len(), CHANNEL_CAPACITY);

    // The store itself is unaffected: a fresh subscriber still gets a
    // complete snapshot and live events.
    let c = s.subscribe();
    assert_eq!(restart_map(&s.recv(c.id()).unwrap()), s.get_state());
    s.mutate_state(1000, |_| Some(1));
    assert!(matches!(s.recv(c.id()), Some(Event::Added(1000, 1))));
}

#[test]
fn apply_to_replays_each_kind_of_event() {
    let mut m = HashMap::new();
    Event::Added(1, 10).apply_to(&mut m);
    assert_eq!(m.get(&1), Some(&10));
    Event::Modified(1, 11).apply_to(&mut m);
    assert_eq!(m.get(&1), Some(&11));
    Event::Removed(1).apply_to(&mut m);
    assert!(m.is_empty());

    let mut snapshot = HashMap::new();
    snapshot.insert(5u64, 50u64);
    Event::Restart(snapshot.clone()).apply_to(&mut m);
    assert_eq!(m, snapshot);
}

#[test]
fn is_subscribed_tracks_registration() {
    let mut s = State::default();
    let sub = s.subscribe();
    assert!(s.is_subscribed(sub.id()));
    s.unsubscribe(sub.id());
    assert!(!s.is_subscribed(sub.id()));
}

#[test]
fn duplicate_carries_the_same_change() {
    let d = Event::Added(1, 2).duplicate();
    assert!(matches!(d, Event::Added(1, 2)));

    let mut m = HashMap::new();
    m.insert(4u64, 40u64);
    let r = Event::Restart(m.clone()).duplicate();
    assert_eq!(restart_map(&r), m);
}

#[test]
fn subscription_handle_names_its_registration() {
    let sub = Subscription::new(42);
    assert_eq!(sub.id(), 42);
}
