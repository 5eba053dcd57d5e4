use wasmraft::host::{
    send_message, spawn_instance, sweep_instance, DevilCat, Event, EventBuffer, EventData,
    WasmHostState,
};

fn raw(bytes: &[u8]) -> EventData {
    EventData::RawMessage { message: bytes.to_vec() }
}

#[test]
fn event_new_keeps_fields() {
    let e = Event::new(42, 3, raw(b"x"));
    assert_eq!(e.fire_time, 42);
    assert_eq!(e.sender_id, 3);
    assert!(matches!(e.data, EventData::RawMessage { .. }));
}

#[test]
fn buffer_pops_minimum_first() {
    let mut buf = EventBuffer::new();
    buf.push(Event::new(500, 1, raw(b"late")));
    buf.push(Event::new(10, 2, raw(b"early")));
    buf.push(Event::new(200, 3, raw(b"middle")));
    assert_eq!(buf.len(), 3);
    let a = buf.pop_due(1000).unwrap();
    let b = buf.pop_due(1000).unwrap();
    let c = buf.pop_due(1000).unwrap();
    assert_eq!((a.fire_time, b.fire_time, c.fire_time), (10, 200, 500));
    assert!(buf.pop_due(1000).is_none());
}

#[test]
fn buffer_holds_future_events_back() {
    let mut buf = EventBuffer::new();
    buf.push(Event::new(100, 1, raw(b"soon")));
    assert!(!buf.due_at(99));
    assert!(buf.pop_due(99).is_none());
    assert!(buf.due_at(100));
    let e = buf.pop_due(100).unwrap();
    assert_eq!(e.fire_time, 100);
}

#[test]
fn devil_respects_bounds() {
    let devil = DevilCat::new(10, 5000);
    for _ in 0..50 {
        let d = devil.get_random_delay();
        assert!((10..=5000).contains(&d));
    }
    // a degenerate range pins the sample
    let fixed = DevilCat::new(500, 500);
    assert_eq!(fixed.get_random_delay(), 500);
    let zero = DevilCat::default();
    assert_eq!((zero.min_delay, zero.max_delay), (0, 0));
}

#[test]
fn spawn_assigns_monotonic_ids() {
    let mut host = WasmHostState::default();
    assert_eq!(host.devil_cat.min_delay, 10);
    assert_eq!(host.devil_cat.max_delay, 5000);
    for want in 1..=4 {
        let id = spawn_instance(&mut host);
        assert_eq!(id, want);
    }
    assert_eq!(host.counter, 4);
    assert_eq!(host.instances.len(), 4);
    assert_eq!(host.instances[3].id, 4);
}

#[test]
fn send_message_reaches_the_target_mailbox() {
    let mut host = WasmHostState::default();
    host.devil_cat = DevilCat::new(0, 0);
    spawn_instance(&mut host);
    spawn_instance(&mut host);
    send_message(&mut host, 2, 1, b"hello".to_vec(), 1000);
    assert_eq!(host.instances[0].pending.len(), 0);
    assert_eq!(host.instances[1].pending.len(), 1);
    let ev = &host.instances[1].pending[0];
    assert_eq!(ev.sender_id, 1);
    assert_eq!(ev.fire_time, 1000);
    match &ev.data {
        EventData::RawMessage { message } => assert_eq!(message, b"hello"),
        _ => panic!("expected a raw message"),
    }
}

#[test]
fn send_message_to_unknown_target_is_dropped() {
    let mut host = WasmHostState::default();
    spawn_instance(&mut host);
    send_message(&mut host, 9, 1, b"void".to_vec(), 0);
    assert_eq!(host.instances[0].pending.len(), 0);
}

// Devil ordering: with a 500 ms delay and then a 10 ms delay to the same
// target, the second message is delivered first.
#[test]
fn devil_ordering() {
    let mut host = WasmHostState::default();
    spawn_instance(&mut host);
    spawn_instance(&mut host);
    host.devil_cat = DevilCat::new(500, 500);
    send_message(&mut host, 2, 1, b"first".to_vec(), 0);
    host.devil_cat = DevilCat::new(10, 10);
    send_message(&mut host, 2, 1, b"second".to_vec(), 0);
    let due = sweep_instance(&mut host.instances[1], 1000);
    assert_eq!(due.len(), 2);
    match (&due[0].data, &due[1].data) {
        (
            EventData::RawMessage { message: m0 },
            EventData::RawMessage { message: m1 },
        ) => {
            assert_eq!(m0, b"second");
            assert_eq!(m1, b"first");
        },
        _ => panic!("expected raw messages"),
    }
    assert_eq!((due[0].fire_time, due[1].fire_time), (10, 500));
}

// A sweep drains the channel first, so a fresh event already due fires in
// the same sweep; anything not yet due stays buffered.
#[test]
fn sweep_drains_then_fires() {
    let mut host = WasmHostState::default();
    spawn_instance(&mut host);
    host.devil_cat = DevilCat::new(5, 5);
    send_message(&mut host, 1, 1, b"due".to_vec(), 0);
    host.devil_cat = DevilCat::new(5000, 5000);
    send_message(&mut host, 1, 1, b"later".to_vec(), 0);
    let due = sweep_instance(&mut host.instances[0], 100);
    assert_eq!(due.len(), 1);
    assert_eq!(due[0].fire_time, 5);
    assert_eq!(host.instances[0].pending.len(), 0);
    // the remaining event fires once its time has come
    let due = sweep_instance(&mut host.instances[0], 5000);
    assert_eq!(due.len(), 1);
    assert_eq!(due[0].fire_time, 5000);
}

// Timer events are carried like any other scheduled event.
#[test]
fn timer_events_flow_through_the_buffer() {
    let mut buf = EventBuffer::new();
    buf.push(Event::new(1, 0, EventData::Timer { timer_name: String::from("tick") }));
    let e = buf.pop_due(1).unwrap();
    match e.data {
        EventData::Timer { timer_name } => assert_eq!(timer_name, "tick"),
        _ => panic!("expected a timer"),
    }
}
