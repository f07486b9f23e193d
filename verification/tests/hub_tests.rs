use frame_relay::hub::Hub;

#[test]
fn register_assigns_distinct_ids_in_order() {
    let mut hub = Hub::new();
    let a = hub.register();
    let b = hub.register();
    let c = hub.register();
    assert_eq!(a, 0);
    assert_eq!(b, 1);
    assert_eq!(c, 2);
    assert_eq!(hub.registry.len(), 3);
}

// Fan-out completeness: A sends a message; after one tick B and C — but not
// A — have it available on their relay channels.
#[test]
fn fanout_reaches_all_but_origin() {
    let mut hub = Hub::new();
    let a = hub.register();
    let b = hub.register();
    let c = hub.register();

    let m = b"hello".to_vec();
    assert!(hub.send_to_hub(a, m.clone()));
    hub.tick();

    assert_eq!(hub.take_outgoing(b), Some(m.clone()));
    assert_eq!(hub.take_outgoing(c), Some(m));
    assert_eq!(hub.take_outgoing(a), None);
    assert_eq!(hub.take_outgoing(b), None);
    assert_eq!(hub.take_outgoing(c), None);
}

// Registry pruning: after a handler terminates, one tick shrinks the
// registry by exactly one, and nothing more reaches or leaves that
// connection.
#[test]
fn pruning_removes_terminated_connection() {
    let mut hub = Hub::new();
    let a = hub.register();
    let b = hub.register();
    let c = hub.register();

    // B queued a message and then its handler terminated before any tick:
    // the message dies with the channel.
    assert!(hub.send_to_hub(b, b"late".to_vec()));
    assert!(hub.disconnect(b));
    assert_eq!(hub.registry.len(), 3);

    hub.tick();

    assert_eq!(hub.registry.len(), 2);
    assert_eq!(hub.take_outgoing(a), None);
    assert_eq!(hub.take_outgoing(c), None);
    assert_eq!(hub.take_outgoing(b), None);
    assert!(!hub.send_to_hub(b, b"again".to_vec()));

    // The survivors still relay to each other.
    assert!(hub.send_to_hub(a, b"still here".to_vec()));
    hub.tick();
    assert_eq!(hub.take_outgoing(c), Some(b"still here".to_vec()));
    assert_eq!(hub.take_outgoing(a), None);
}

// Broadcasts within one tick arrive in registration order of their origins.
#[test]
fn fanout_keeps_registration_order() {
    let mut hub = Hub::new();
    let a = hub.register();
    let b = hub.register();
    let c = hub.register();

    assert!(hub.send_to_hub(b, b"from b".to_vec()));
    assert!(hub.send_to_hub(a, b"from a".to_vec()));
    hub.tick();

    // Channel a is registered before channel b, so its message is relayed
    // first, whatever the order the sends happened in.
    assert_eq!(hub.take_outgoing(c), Some(b"from a".to_vec()));
    assert_eq!(hub.take_outgoing(c), Some(b"from b".to_vec()));
    assert_eq!(hub.take_outgoing(c), None);
    assert_eq!(hub.take_outgoing(a), Some(b"from b".to_vec()));
    assert_eq!(hub.take_outgoing(b), Some(b"from a".to_vec()));
}

// At most one message per connection is drained per tick, so no connection
// can starve the others.
#[test]
fn one_message_per_connection_per_tick() {
    let mut hub = Hub::new();
    let a = hub.register();
    let b = hub.register();

    assert!(hub.send_to_hub(a, b"first".to_vec()));
    assert!(hub.send_to_hub(a, b"second".to_vec()));

    hub.tick();
    assert_eq!(hub.take_outgoing(b), Some(b"first".to_vec()));
    assert_eq!(hub.take_outgoing(b), None);

    hub.tick();
    assert_eq!(hub.take_outgoing(b), Some(b"second".to_vec()));
}

#[test]
fn send_to_unknown_connection_fails() {
    let mut hub = Hub::new();
    let a = hub.register();
    assert!(!hub.send_to_hub(a + 1, b"nobody".to_vec()));
    assert!(!hub.disconnect(a + 1));
    assert_eq!(hub.take_outgoing(a + 1), None);
}

#[test]
fn lone_connection_gets_nothing_back() {
    let mut hub = Hub::new();
    let a = hub.register();
    assert!(hub.send_to_hub(a, b"echo?".to_vec()));
    hub.tick();
    assert_eq!(hub.take_outgoing(a), None);
}
