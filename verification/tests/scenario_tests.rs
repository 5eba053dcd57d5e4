//! End-to-end runs of the runtime core: guests driven through the host's
//! mailboxes exactly as the scheduler loop drives them, with the devil's
//! delay pinned so the runs are deterministic.

use wasmraft::codec::decode_event;
use wasmraft::host::{send_message, spawn_instance, sweep_instance, DevilCat, EventData, WasmHostState};
use wasmraft::instance::{client_enqueue, InstanceState};
use wasmraft::messages::{ClientEnqueueResponse, Events, Operation};

/// Run scheduler sweeps at a fixed simulated time until nothing moves,
/// recording every event delivered to `watch_id`.
fn run_until_quiet(
    host: &mut WasmHostState,
    guests: &mut Vec<InstanceState>,
    watch_id: i32,
) -> Vec<Events> {
    let mut seen = Vec::new();
    for _ in 0..16 {
        for idx in 0..host.instances.len() {
            let target_id = host.instances[idx].id;
            let due = sweep_instance(&mut host.instances[idx], 0);
            for ev in due {
                match ev.data {
                    EventData::RawMessage { message } => {
                        if target_id == watch_id {
                            if let Some(decoded) = decode_event(&message) {
                                seen.push(decoded);
                            }
                        }
                        let out = guests[(target_id - 1) as usize]
                            .receive_message(ev.sender_id, &message);
                        for (peer, bytes) in out {
                            send_message(host, peer, target_id, bytes, 0);
                        }
                    },
                    _ => {},
                }
            }
        }
    }
    seen
}

// Single enqueue, happy path: four instances, instance 1 the leader,
// instance 4 the client enqueueing 111. Instances 1..3 end with the entry
// replicated, the leader commits and applies it, and the client receives
// exactly one acknowledgement at log index 1. The followers apply only
// once a later request carries the advanced commit point (nothing
// retransmits or heartbeats here), which the next test shows.
#[test]
fn single_enqueue_happy_path() {
    let mut host = WasmHostState::default();
    host.devil_cat = DevilCat::new(0, 0);
    let mut guests: Vec<InstanceState> = Vec::new();
    for _ in 0..4 {
        let id = spawn_instance(&mut host);
        guests.push(InstanceState::new(id));
    }
    guests[0].make_leader_host();

    let (leader, bytes) = client_enqueue(111, 1, 4);
    send_message(&mut host, leader, 4, bytes, 0);

    let client_saw = run_until_quiet(&mut host, &mut guests, 4);

    for g in guests.iter().take(3) {
        assert_eq!(g.log.len(), 1, "instance {} should hold one entry", g.id);
        let e = &g.log[0];
        assert_eq!(e.operation, Some(Operation::Enqueue));
        assert_eq!(e.arguments, Some(111));
        assert_eq!(e.requester, Some(4));
        assert_eq!(e.term, 1);
        assert_eq!(e.index, 1);
    }
    assert_eq!(guests[0].queue, vec![111]);
    assert_eq!(guests[0].commit_index, 1);
    assert_eq!(guests[0].last_applied, 1);
    assert!(guests[3].log.is_empty());

    let acks: Vec<&Events> = client_saw
        .iter()
        .filter(|e| matches!(e, Events::ClientEnqueueResponse(_)))
        .collect();
    assert_eq!(acks.len(), 1);
    assert_eq!(
        *acks[0],
        Events::ClientEnqueueResponse(ClientEnqueueResponse::new(111, 4, 1))
    );

    // the bounds invariant holds on every instance
    for g in &guests {
        assert!(0 <= g.last_applied);
        assert!(g.last_applied <= g.commit_index);
        assert!((g.commit_index as usize) <= g.log.len());
    }
    // the committed entry carries the leader's current term
    assert_eq!(guests[0].log[0].term, guests[0].current_term);
    // replicas agree bitwise on the committed entry
    assert_eq!(guests[0].log[0], guests[1].log[0]);
    assert_eq!(guests[1].log[0], guests[2].log[0]);
    // the applied queue is the projection of the applied enqueue arguments
    let projection: Vec<i32> = guests[0].log[..guests[0].last_applied as usize]
        .iter()
        .filter(|e| e.operation == Some(Operation::Enqueue))
        .map(|e| e.arguments.unwrap())
        .collect();
    assert_eq!(guests[0].queue, projection);
    // the ack rested on a majority: both followers' match indices reached 1
    let at_least_one = guests[0]
        .match_index
        .iter()
        .filter(|&&(_, idx)| idx >= 1)
        .count();
    assert!(at_least_one > guests[0].view.len() / 2);
}

// Two enqueues commit in order; the second request carries the advanced
// commit point, so the followers then apply the first value.
#[test]
fn two_enqueues_replicate_in_order() {
    let mut host = WasmHostState::default();
    host.devil_cat = DevilCat::new(0, 0);
    let mut guests: Vec<InstanceState> = Vec::new();
    for _ in 0..4 {
        let id = spawn_instance(&mut host);
        guests.push(InstanceState::new(id));
    }
    guests[0].make_leader_host();

    let (leader, bytes) = client_enqueue(7, 1, 4);
    send_message(&mut host, leader, 4, bytes, 0);
    run_until_quiet(&mut host, &mut guests, 4);

    let (leader, bytes) = client_enqueue(9, 1, 4);
    send_message(&mut host, leader, 4, bytes, 0);
    let client_saw = run_until_quiet(&mut host, &mut guests, 4);

    for g in guests.iter().take(3) {
        assert_eq!(g.log.len(), 2);
    }
    assert_eq!(guests[0].queue, vec![7, 9]);
    assert_eq!(guests[0].commit_index, 2);
    // the followers have learned the first commit from the second request
    assert_eq!(guests[1].queue, vec![7]);
    assert_eq!(guests[2].queue, vec![7]);
    assert_eq!(guests[1].commit_index, 1);
    let acks: Vec<&Events> = client_saw
        .iter()
        .filter(|e| matches!(e, Events::ClientEnqueueResponse(_)))
        .collect();
    assert_eq!(acks.len(), 1);
    assert_eq!(
        *acks[0],
        Events::ClientEnqueueResponse(ClientEnqueueResponse::new(9, 4, 2))
    );
}
