use wasmraft::instance::{client_enqueue, Actor, InstanceState};
use wasmraft::codec::{decode_event, encode_event};
use wasmraft::messages::{
    AppendEntryRequest, AppendEntryResponse, ClientEnqueueRequest, Events, LogEntry, Operation,
};

fn request(term: i32, prev: i32, prev_term: i32, entries: Vec<LogEntry>, commit: i32) -> Events {
    Events::AppendEntryRequest(AppendEntryRequest::new(term, 1, prev, prev_term, entries, commit))
}

#[test]
fn new_instance_defaults() {
    let inst = InstanceState::new(2);
    assert_eq!(inst.get_instance(), 2);
    assert_eq!(inst.view, vec![1, 2, 3]);
    assert_eq!(inst.current_leader, 1);
    assert_eq!(inst.current_term, 1);
    assert_eq!(inst.voted_for, -1);
    assert_eq!(inst.commit_index, 0);
    assert_eq!(inst.last_applied, 0);
    assert!(!inst.is_leader);
    assert!(!inst.is_candidate);
    assert!(inst.log.is_empty());
    assert!(inst.queue.is_empty());
    assert_eq!(inst.get_last_log_index(), 0);
    assert_eq!(inst.get_last_log_term(), 0);
}

#[test]
fn default_matches_unassigned_id() {
    let inst = InstanceState::default();
    assert_eq!(inst.get_instance(), -1);
}

#[test]
fn make_leader_host_is_idempotent() {
    let mut inst = InstanceState::new(1);
    inst.make_leader_host();
    assert!(inst.is_leader);
    inst.make_leader_host();
    assert!(inst.is_leader);
    assert_eq!(inst.current_term, 1);
}

#[test]
fn log_entry_constructors() {
    let e = LogEntry::empty();
    assert_eq!((e.index, e.term), (0, 0));
    assert_eq!(e.operation, None);
    assert_eq!(e.requester, None);
    assert_eq!(e.arguments, None);

    let n = LogEntry::nop(1, 2, 3);
    assert_eq!(n.operation, Some(Operation::Nop));
    assert_eq!(n.requester, Some(3));
    assert_eq!(n.arguments, None);

    let q = LogEntry::enqueue(1, 1, 4, 111);
    assert_eq!(q.operation, Some(Operation::Enqueue));
    assert_eq!(q.arguments, Some(111));

    let d = LogEntry::dequeue(2, 1, 4);
    assert_eq!(d.operation, Some(Operation::Dequeue));
    assert_eq!(d.arguments, None);
}

#[test]
fn events_constructors() {
    let e = LogEntry::nop(1, 1, 2);
    assert_eq!(Events::new_log_entry(e), Events::LogEntry(e));
    let req = AppendEntryRequest::new(1, 1, 0, 0, vec![], 0);
    assert!(matches!(
        Events::new_append_entry_request(req),
        Events::AppendEntryRequest(_)
    ));
    let resp = AppendEntryResponse::new(1, 0, true);
    assert_eq!(
        Events::new_append_entry_response(resp),
        Events::AppendEntryResponse(resp)
    );
}

#[test]
fn client_enqueue_builds_a_decodable_request() {
    let (target, bytes) = client_enqueue(111, 1, 4);
    assert_eq!(target, 1);
    assert_eq!(
        decode_event(&bytes),
        Some(Events::ClientEnqueueRequest(ClientEnqueueRequest::new(111, 4)))
    );
}

// Stale term reject: a request with an older term is answered
// `success = false` at the request's prev_log_index and changes nothing.
#[test]
fn stale_term_reject() {
    let mut follower = InstanceState::new(2);
    assert_eq!(follower.current_term, 1);
    let out = follower.receive_event(1, request(0, 7, 0, vec![], 0));
    assert_eq!(out.len(), 1);
    assert_eq!(out[0].0, 1);
    assert_eq!(
        out[0].1,
        Events::AppendEntryResponse(AppendEntryResponse::new(1, 7, false))
    );
    assert_eq!(follower.current_term, 1);
    assert!(follower.log.is_empty());
    assert_eq!(follower.commit_index, 0);
}

// First heartbeat: an empty request over an empty log is acknowledged at
// index 0 and leaves everything unchanged.
#[test]
fn first_heartbeat() {
    let mut follower = InstanceState::new(2);
    let out = follower.receive_event(1, request(1, 0, 0, vec![], 0));
    assert_eq!(out.len(), 1);
    assert_eq!(
        out[0].1,
        Events::AppendEntryResponse(AppendEntryResponse::new(1, 0, true))
    );
    assert!(follower.log.is_empty());
    assert_eq!(follower.commit_index, 0);
    assert_eq!(follower.last_applied, 0);
}

// Conflicting entry truncation: an entry of another term at the append
// point replaces the old suffix.
#[test]
fn conflicting_entry_truncation() {
    let mut follower = InstanceState::new(2);
    let a = LogEntry::enqueue(1, 1, 4, 10);
    let out = follower.receive_event(1, request(1, 0, 0, vec![a], 0));
    assert_eq!(out.len(), 1);
    assert_eq!(follower.log.len(), 1);
    assert_eq!(follower.log[0].term, 1);

    let b = LogEntry::enqueue(1, 2, 4, 20);
    let out = follower.receive_event(1, request(2, 0, 0, vec![b], 0));
    assert_eq!(out.len(), 1);
    assert_eq!(
        out[0].1,
        Events::AppendEntryResponse(AppendEntryResponse::new(2, 1, true))
    );
    assert_eq!(follower.log.len(), 1);
    assert_eq!(follower.log[0].term, 2);
    assert_eq!(follower.log[0].arguments, Some(20));
    assert_eq!(follower.current_term, 2);
}

// Leader step-down: a response carrying a larger term ends the leadership
// and nothing more is sent.
#[test]
fn leader_step_down() {
    let mut leader = InstanceState::new(1);
    leader.make_leader_host();
    let out = leader.receive_event(
        2,
        Events::AppendEntryResponse(AppendEntryResponse::new(5, 0, true)),
    );
    assert!(out.is_empty());
    assert_eq!(leader.current_term, 5);
    assert!(!leader.is_leader);
    assert!(!leader.is_candidate);
}

// A follower applies committed enqueue entries to its queue in order.
#[test]
fn follower_applies_committed_enqueues() {
    let mut follower = InstanceState::new(3);
    let e1 = LogEntry::enqueue(1, 1, 4, 7);
    let out = follower.receive_event(1, request(1, 0, 0, vec![e1], 1));
    assert_eq!(out.len(), 1);
    assert_eq!(
        out[0].1,
        Events::AppendEntryResponse(AppendEntryResponse::new(1, 1, true))
    );
    assert_eq!(follower.queue, vec![7]);
    assert_eq!(follower.commit_index, 1);
    assert_eq!(follower.last_applied, 1);

    let e2 = LogEntry::enqueue(2, 1, 4, 9);
    follower.receive_event(1, request(1, 1, 1, vec![e2], 2));
    assert_eq!(follower.queue, vec![7, 9]);
    assert_eq!(follower.commit_index, 2);
}

// Applying a dequeue entry pops the queue's front.
#[test]
fn follower_applies_dequeue() {
    let mut follower = InstanceState::new(3);
    let e1 = LogEntry::enqueue(1, 1, 4, 7);
    let e2 = LogEntry::dequeue(2, 1, 4);
    follower.receive_event(1, request(1, 0, 0, vec![e1, e2], 2));
    assert!(follower.queue.is_empty());
    assert_eq!(follower.last_applied, 2);
}

// A request whose prev entry does not match is rejected at prev_log_index.
#[test]
fn mismatched_prev_rejected() {
    let mut follower = InstanceState::new(2);
    follower.receive_event(1, request(1, 0, 0, vec![LogEntry::enqueue(1, 1, 4, 10)], 0));
    let out = follower.receive_event(1, request(1, 1, 9, vec![LogEntry::enqueue(2, 1, 4, 11)], 0));
    assert_eq!(
        out[0].1,
        Events::AppendEntryResponse(AppendEntryResponse::new(1, 1, false))
    );
    assert_eq!(follower.log.len(), 1);

    // and one pointing past the end of the log
    let out = follower.receive_event(1, request(1, 5, 1, vec![], 0));
    assert_eq!(
        out[0].1,
        Events::AppendEntryResponse(AppendEntryResponse::new(1, 5, false))
    );
}

// A request with no entries that points below an existing entry discards
// that entry and everything after it.
#[test]
fn empty_entries_truncate_at_append_point() {
    let mut follower = InstanceState::new(2);
    follower.receive_event(1, request(1, 0, 0, vec![LogEntry::enqueue(1, 1, 4, 10)], 0));
    assert_eq!(follower.log.len(), 1);
    let out = follower.receive_event(1, request(1, 0, 0, vec![], 0));
    assert!(follower.log.is_empty());
    assert_eq!(
        out[0].1,
        Events::AppendEntryResponse(AppendEntryResponse::new(1, 0, true))
    );
}

// A candidate only observes.
#[test]
fn candidate_ignores_requests() {
    let mut cand = InstanceState::new(2);
    cand.is_candidate = true;
    let out = cand.receive_event(1, request(1, 0, 0, vec![], 0));
    assert!(out.is_empty());
    assert!(cand.log.is_empty());
}

// A message the codec rejects changes nothing and is answered by nothing.
#[test]
fn malformed_message_is_dropped() {
    let mut follower = InstanceState::new(2);
    let out = follower.receive_message(1, &b"not an event".to_vec());
    assert!(out.is_empty());
    assert_eq!(follower.current_term, 1);
}

// The Actor entry point decodes, dispatches, and encodes replies.
#[test]
fn actor_receive_round_trips() {
    let mut follower = InstanceState::new(2);
    let req = encode_event(&request(1, 0, 0, vec![], 0));
    let out = follower.receive(1, &req);
    assert_eq!(out.len(), 1);
    assert_eq!(out[0].0, 1);
    assert_eq!(
        decode_event(&out[0].1),
        Some(Events::AppendEntryResponse(AppendEntryResponse::new(1, 0, true)))
    );
}
