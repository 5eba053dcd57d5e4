//! The typed events exchanged between instances: client enqueue requests and
//! responses, log-replication requests and responses, and the log entries
//! themselves. Each carrier of a `Vec` also has a mathematical model (a
//! `Seq`-based mirror) reached through `view`, so that contracts can speak
//! of message contents as sequences.

use vstd::prelude::*;

verus! {

/// The operation a log entry performs on the replicated queue.
#[derive(Clone, Copy, Debug, PartialEq, Eq)]
pub enum Operation {
    Nop,
    Enqueue,
    Dequeue,
}

/// One entry of the replicated log. `index` is the 1-based ordinal assigned
/// when the entry is appended; `arguments` is only meaningful for `Enqueue`.
#[derive(Clone, Copy, Debug, PartialEq, Eq)]
pub struct LogEntry {
    pub index: i32,
    pub term: i32,
    pub operation: Option<Operation>,
    pub requester: Option<i32>,
    pub arguments: Option<i32>,
}

impl LogEntry {
    pub fn empty() -> (r: Self)
        ensures
            r == (LogEntry {
                index: 0,
                term: 0,
                operation: None::<Operation>,
                requester: None::<i32>,
                arguments: None::<i32>,
            }),
    {
        LogEntry { index: 0, term: 0, operation: None, requester: None, arguments: None }
    }

    pub fn nop(index: i32, term: i32, requester: i32) -> (r: Self)
        ensures
            r == (LogEntry {
                index,
                term,
                operation: Some(Operation::Nop),
                requester: Some(requester),
                arguments: None::<i32>,
            }),
    {
        LogEntry {
            index,
            term,
            operation: Some(Operation::Nop),
            requester: Some(requester),
            arguments: None,
        }
    }

    pub fn enqueue(index: i32, term: i32, requester: i32, arguments: i32) -> (r: Self)
        ensures
            r == (LogEntry {
                index,
                term,
                operation: Some(Operation::Enqueue),
                requester: Some(requester),
                arguments: Some(arguments),
            }),
    {
        LogEntry {
            index,
            term,
            operation: Some(Operation::Enqueue),
            requester: Some(requester),
            arguments: Some(arguments),
        }
    }

    pub fn dequeue(index: i32, term: i32, requester: i32) -> (r: Self)
        ensures
            r == (LogEntry {
                index,
                term,
                operation: Some(Operation::Dequeue),
                requester: Some(requester),
                arguments: None::<i32>,
            }),
    {
        LogEntry {
            index,
            term,
            operation: Some(Operation::Dequeue),
            requester: Some(requester),
            arguments: None,
        }
    }
}

/// The mathematical model of an [`AppendEntryRequest`]: the same fields with
/// the entry list as a `Seq`.
#[verifier::ext_equal]
pub struct AppendEntryRequestModel {
    pub term: i32,
    pub leader_id: i32,
    pub prev_log_index: i32,
    pub prev_log_term: i32,
    pub entries: Seq<LogEntry>,
    pub leader_commit: i32,
}

/// A leader's request that a follower append `entries` after the entry at
/// `prev_log_index` (1-based; 0 means the start of the log).
#[derive(Debug, PartialEq)]
pub struct AppendEntryRequest {
    pub term: i32,
    pub leader_id: i32,
    pub prev_log_index: i32,
    pub prev_log_term: i32,
    pub entries: Vec<LogEntry>,
    pub leader_commit: i32,
}

impl View for AppendEntryRequest {
    type V = AppendEntryRequestModel;

    open spec fn view(&self) -> AppendEntryRequestModel {
        AppendEntryRequestModel {
            term: self.term,
            leader_id: self.leader_id,
            prev_log_index: self.prev_log_index,
            prev_log_term: self.prev_log_term,
            entries: self.entries@,
            leader_commit: self.leader_commit,
        }
    }
}

impl AppendEntryRequest {
    pub fn new(
        term: i32,
        leader_id: i32,
        prev_log_index: i32,
        prev_log_term: i32,
        entries: Vec<LogEntry>,
        leader_commit: i32,
    ) -> (r: Self)
        ensures
            r@ == (AppendEntryRequestModel {
                term,
                leader_id,
                prev_log_index,
                prev_log_term,
                entries: entries@,
                leader_commit,
            }),
    {
        AppendEntryRequest { term, leader_id, prev_log_index, prev_log_term, entries, leader_commit }
    }
}

/// A follower's reply to an [`AppendEntryRequest`]. `log_index` relates the
/// response to the request: the follower's last log index on success, the
/// request's `prev_log_index` on rejection.
#[derive(Clone, Copy, Debug, PartialEq, Eq)]
pub struct AppendEntryResponse {
    pub term: i32,
    pub log_index: i32,
    pub success: bool,
}

impl AppendEntryResponse {
    /// Create a new AppendEntryResponse
    pub fn new(term: i32, log_index: i32, success: bool) -> (r: Self)
        ensures
            r == (AppendEntryResponse { term, log_index, success }),
    {
        AppendEntryResponse { term, log_index, success }
    }
}

/// A client's request that the leader enqueue `val`.
#[derive(Clone, Copy, Debug, PartialEq, Eq)]
pub struct ClientEnqueueRequest {
    pub val: i32,
    pub client_id: i32,
}

impl ClientEnqueueRequest {
    /// Create a new ClientEnqueueRequest
    pub fn new(val: i32, client_id: i32) -> (r: Self)
        ensures
            r == (ClientEnqueueRequest { val, client_id }),
    {
        ClientEnqueueRequest { val, client_id }
    }
}

/// The leader's acknowledgement that the enqueue of `val` was committed at
/// log ordinal `log_index`.
#[derive(Clone, Copy, Debug, PartialEq, Eq)]
pub struct ClientEnqueueResponse {
    pub val: i32,
    pub client_id: i32,
    pub log_index: i32,
}

impl ClientEnqueueResponse {
    /// Create a new ClientEnqueueResponse
    pub fn new(val: i32, client_id: i32, log_index: i32) -> (r: Self)
        ensures
            r == (ClientEnqueueResponse { val, client_id, log_index }),
    {
        ClientEnqueueResponse { val, client_id, log_index }
    }
}

/// The mathematical model of an [`Events`] value.
#[verifier::ext_equal]
pub enum EventsModel {
    ClientEnqueueResponse(ClientEnqueueResponse),
    LogEntry(LogEntry),
    AppendEntryRequest(AppendEntryRequestModel),
    AppendEntryResponse(AppendEntryResponse),
    ClientEnqueueRequest(ClientEnqueueRequest),
}

/// The tagged union of every message that travels between instances.
#[derive(Debug, PartialEq)]
pub enum Events {
    ClientEnqueueResponse(ClientEnqueueResponse),
    LogEntry(LogEntry),
    AppendEntryRequest(AppendEntryRequest),
    AppendEntryResponse(AppendEntryResponse),
    ClientEnqueueRequest(ClientEnqueueRequest),
}

impl View for Events {
    type V = EventsModel;

    open spec fn view(&self) -> EventsModel {
        match self {
            Events::ClientEnqueueResponse(r) => EventsModel::ClientEnqueueResponse(*r),
            Events::LogEntry(e) => EventsModel::LogEntry(*e),
            Events::AppendEntryRequest(r) => EventsModel::AppendEntryRequest(r@),
            Events::AppendEntryResponse(r) => EventsModel::AppendEntryResponse(*r),
            Events::ClientEnqueueRequest(r) => EventsModel::ClientEnqueueRequest(*r),
        }
    }
}

impl Events {
    /// Create a new event
    pub fn new_log_entry(entry: LogEntry) -> (r: Self)
        ensures
            r@ == EventsModel::LogEntry(entry),
    {
        Events::LogEntry(entry)
    }

    pub fn new_append_entry_request(request: AppendEntryRequest) -> (r: Self)
        ensures
            r@ == EventsModel::AppendEntryRequest(request@),
    {
        Events::AppendEntryRequest(request)
    }

    pub fn new_append_entry_response(response: AppendEntryResponse) -> (r: Self)
        ensures
            r@ == EventsModel::AppendEntryResponse(response),
    {
        Events::AppendEntryResponse(response)
    }
}

} // verus!
