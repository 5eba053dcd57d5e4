use wasmraft::codec::{decode_event, encode_event};
use wasmraft::messages::{
    AppendEntryRequest, AppendEntryResponse, ClientEnqueueRequest, ClientEnqueueResponse, Events,
    LogEntry, Operation,
};

fn entry_sample() -> LogEntry {
    LogEntry {
        index: 1,
        term: 1,
        operation: Some(Operation::Enqueue),
        requester: Some(4),
        arguments: Some(111),
    }
}

#[test]
fn round_trip_client_enqueue_request() {
    let ev = Events::ClientEnqueueRequest(ClientEnqueueRequest::new(111, 4));
    let bytes = encode_event(&ev);
    assert_eq!(decode_event(&bytes), Some(ev));
}

#[test]
fn round_trip_client_enqueue_response() {
    let ev = Events::ClientEnqueueResponse(ClientEnqueueResponse::new(111, 4, 1));
    let bytes = encode_event(&ev);
    assert_eq!(decode_event(&bytes), Some(ev));
}

#[test]
fn round_trip_append_entry_response() {
    for &success in &[true, false] {
        let ev = Events::AppendEntryResponse(AppendEntryResponse::new(1, 0, success));
        let bytes = encode_event(&ev);
        assert_eq!(decode_event(&bytes), Some(ev));
    }
}

#[test]
fn round_trip_append_entry_request() {
    let ev = Events::AppendEntryRequest(AppendEntryRequest::new(
        1,
        1,
        0,
        0,
        vec![entry_sample()],
        0,
    ));
    let bytes = encode_event(&ev);
    assert_eq!(decode_event(&bytes), Some(ev));
}

#[test]
fn round_trip_append_entry_request_empty_and_many() {
    let empty = Events::AppendEntryRequest(AppendEntryRequest::new(3, 1, 2, 1, vec![], 2));
    let bytes = encode_event(&empty);
    assert_eq!(decode_event(&bytes), Some(empty));

    let mut entries = Vec::new();
    for i in 0..5 {
        entries.push(LogEntry::nop(i + 1, 2, 7));
    }
    let many = Events::AppendEntryRequest(AppendEntryRequest::new(2, 1, 0, 0, entries, 0));
    let bytes = encode_event(&many);
    assert_eq!(decode_event(&bytes), Some(many));
}

#[test]
fn round_trip_log_entry_event() {
    let ev = Events::LogEntry(LogEntry::dequeue(3, 2, 9));
    let bytes = encode_event(&ev);
    assert_eq!(decode_event(&bytes), Some(ev));
}

#[test]
fn round_trip_extreme_integers() {
    let ev = Events::ClientEnqueueResponse(ClientEnqueueResponse::new(
        i32::MAX,
        i32::MIN,
        -1,
    ));
    let bytes = encode_event(&ev);
    assert_eq!(decode_event(&bytes), Some(ev));
}

#[test]
fn encoding_is_the_documented_text() {
    // tag 'Q', then each i32 as ten decimal digits of value + 2^31, least
    // significant digit first: 111 -> 2147483759, 4 -> 2147483652
    let ev = Events::ClientEnqueueRequest(ClientEnqueueRequest::new(111, 4));
    let bytes = encode_event(&ev);
    assert_eq!(bytes, b"Q95738474122563847412".to_vec());
}

#[test]
fn decode_rejects_garbage() {
    assert_eq!(decode_event(&vec![]), None);
    assert_eq!(decode_event(&b"hello world".to_vec()), None);
    // right tag, wrong length
    assert_eq!(decode_event(&b"Q957384741".to_vec()), None);
    // right shape, non-digit bytes
    assert_eq!(decode_event(&b"Q957384741x2563842741".to_vec()), None);
    // trailing bytes after a valid encoding
    let ev = Events::ClientEnqueueRequest(ClientEnqueueRequest::new(111, 4));
    let mut bytes = encode_event(&ev);
    bytes.push(b'!');
    assert_eq!(decode_event(&bytes), None);
}
