//! The guest replication state machine: a leader/candidate/follower role
//! machine over a replicated log driving a FIFO integer queue. Every
//! handler's effect is stated by a spec-level transition function (`step`
//! and its per-role parts); the executable handlers are proved to return
//! exactly that transition's new state and outbox.

use vstd::prelude::*;
use vstd::assert_seqs_equal;

use crate::messages::{
    Operation, LogEntry, AppendEntryRequest, AppendEntryRequestModel, AppendEntryResponse,
    ClientEnqueueRequest, ClientEnqueueResponse, Events, EventsModel,
};
use crate::codec::{encode_event, decode_event, spec_enc_event, spec_dec_event, event_wf};

verus! {

/// Upper bound kept on the log length so 1-based ordinals fit an `i32`.
pub const LOG_LIMIT: usize = 0x7fff_ffff;

/// The mathematical model of an instance's state.
#[verifier::ext_equal]
pub struct StateModel {
    pub id: i32,
    pub view: Seq<i32>,
    pub current_leader: i32,
    pub min_election_timeout: i32,
    pub max_election_timeout: i32,
    pub election_timer: i32,
    pub heartbeat_timeout: i32,
    pub heartbeat_timer: i32,
    pub current_term: i32,
    pub voted_for: i32,
    pub log: Seq<LogEntry>,
    pub commit_index: i32,
    pub last_applied: i32,
    pub is_leader: bool,
    pub is_candidate: bool,
    pub next_index: Seq<(i32, i32)>,
    pub match_index: Seq<(i32, i32)>,
    pub queue: Seq<i32>,
}

/// Whether ordinal `i` (1-based) names an entry of `log`.
pub open spec fn has_entry(log: Seq<LogEntry>, i: int) -> bool {
    1 <= i <= log.len()
}

/// The entry at 1-based ordinal `i`.
pub open spec fn entry_at(log: Seq<LogEntry>, i: int) -> LogEntry {
    log[i - 1]
}

/// The last 1-based log ordinal; 0 when the log is empty.
pub open spec fn spec_last_log_index(log: Seq<LogEntry>) -> int {
    log.len() as int
}

pub open spec fn spec_last_log_term(log: Seq<LogEntry>) -> i32 {
    if log.len() == 0 {
        0
    } else {
        log.last().term
    }
}

/// Applying one entry to the queue: an enqueue pushes its argument at the
/// back, a dequeue drops the front of a non-empty queue, anything else
/// leaves the queue alone.
pub open spec fn apply_entry(q: Seq<i32>, e: LogEntry) -> Seq<i32> {
    match e.operation {
        Some(Operation::Enqueue) => match e.arguments {
            Some(v) => q.push(v),
            None => q,
        },
        Some(Operation::Dequeue) => if q.len() > 0 {
            q.skip(1)
        } else {
            q
        },
        _ => q,
    }
}

/// The queue after applying the entries at ordinals `from+1 ..= to` of
/// `log` to `q`, skipping ordinals that name no entry.
pub open spec fn apply_range(q: Seq<i32>, log: Seq<LogEntry>, from: int, to: int) -> Seq<i32>
    decreases to - from,
{
    if to <= from {
        q
    } else {
        let q1 = apply_range(q, log, from, to - 1);
        if has_entry(log, to) {
            apply_entry(q1, entry_at(log, to))
        } else {
            q1
        }
    }
}

/// The queue obtained by replaying the first `n` entries of `log`.
pub open spec fn replay(log: Seq<LogEntry>, n: int) -> Seq<i32> {
    apply_range(Seq::empty(), log, 0, n)
}

/// The client acknowledgement an applied entry produces, when it is an
/// enqueue that carries both its argument and its requester.
pub open spec fn response_of(e: LogEntry) -> Option<ClientEnqueueResponse> {
    match (e.operation, e.arguments, e.requester) {
        (Some(Operation::Enqueue), Some(v), Some(rq)) => Some(
            ClientEnqueueResponse { val: v, client_id: rq, log_index: e.index },
        ),
        _ => None,
    }
}

/// The acknowledgement sent when ordinal `to` is applied: one message to
/// the requester, or nothing.
pub open spec fn ack_of(log: Seq<LogEntry>, to: int) -> Seq<(i32, EventsModel)> {
    if has_entry(log, to) {
        match response_of(entry_at(log, to)) {
            Some(cer) => seq![(cer.client_id, EventsModel::ClientEnqueueResponse(cer))],
            None => Seq::empty(),
        }
    } else {
        Seq::empty()
    }
}

/// The acknowledgements sent while applying ordinals `from+1 ..= to`.
pub open spec fn commit_outbox(log: Seq<LogEntry>, from: int, to: int) -> Seq<(i32, EventsModel)>
    decreases to - from,
{
    if to <= from {
        Seq::empty()
    } else {
        commit_outbox(log, from, to - 1) + ack_of(log, to)
    }
}

/// One reply to `sender`.
pub open spec fn reply_to(sender: i32, term: i32, log_index: i32, success: bool) -> Seq<
    (i32, EventsModel),
> {
    seq![(sender, EventsModel::AppendEntryResponse(AppendEntryResponse { term, log_index, success }))]
}

/// The members of `view` other than `id`, in view order.
pub open spec fn broadcast_targets(view: Seq<i32>, id: i32) -> Seq<i32>
    decreases view.len(),
{
    if view.len() == 0 {
        Seq::empty()
    } else {
        broadcast_targets(view.drop_last(), id) + if view.last() != id {
            seq![view.last()]
        } else {
            Seq::empty()
        }
    }
}

/// An association list `s` with the binding for `k` replaced (in place) or
/// appended.
pub open spec fn assoc_set(s: Seq<(i32, i32)>, k: i32, v: i32) -> Seq<(i32, i32)>
    decreases s.len(),
{
    if s.len() == 0 {
        seq![(k, v)]
    } else if s[0].0 == k {
        seq![(k, v)] + s.skip(1)
    } else {
        seq![s[0]] + assoc_set(s.skip(1), k, v)
    }
}

/// How many bindings of `s` hold a value at least `x`.
pub open spec fn count_ge(s: Seq<(i32, i32)>, x: i32) -> nat
    decreases s.len(),
{
    if s.len() == 0 {
        0
    } else {
        count_ge(s.drop_last(), x) + if s.last().1 >= x {
            1nat
        } else {
            0nat
        }
    }
}

/// The follower's handling of an append request: reject stale terms, adopt
/// the leader's term, acknowledge a first empty heartbeat, check log
/// consistency at `prev_log_index`, truncate on conflict, append, and
/// advance the commit point no further than the log's end.
pub open spec fn follower_append(s: StateModel, sender: i32, r: AppendEntryRequestModel) -> (
    StateModel,
    Seq<(i32, EventsModel)>,
) {
    if r.term < s.current_term {
        (s, reply_to(sender, s.current_term, r.prev_log_index, false))
    } else if s.log.len() + r.entries.len() >= LOG_LIMIT {
        // machine limit: a log this long has no 1-based i32 ordinals left
        (s, Seq::empty())
    } else {
        let s1 = StateModel { current_term: r.term, current_leader: r.leader_id, ..s };
        if r.prev_log_index == 0 && r.prev_log_term == 0 && r.entries.len() == 0 && s1.log.len()
            == 0 {
            (s1, reply_to(sender, s1.current_term, r.prev_log_index, true))
        } else if r.prev_log_index > 0 && (!has_entry(s1.log, r.prev_log_index as int) || entry_at(
            s1.log,
            r.prev_log_index as int,
        ).term != r.prev_log_term) {
            (s1, reply_to(sender, s1.current_term, r.prev_log_index, false))
        } else {
            let append_index = r.prev_log_index as int + 1;
            let log2 = if has_entry(s1.log, append_index) && (r.entries.len() == 0 || entry_at(
                s1.log,
                append_index,
            ).term != r.entries[0].term) {
                s1.log.take(append_index - 1)
            } else {
                s1.log
            };
            let log3 = log2 + r.entries;
            let lli = log3.len() as int;
            if r.leader_commit > s1.commit_index {
                let ci = if r.leader_commit as int <= lli {
                    r.leader_commit as int
                } else {
                    lli
                };
                let la = if ci > s1.last_applied {
                    ci
                } else {
                    s1.last_applied as int
                };
                let q2 = apply_range(s1.queue, log3, s1.last_applied as int, ci);
                (
                    StateModel {
                        log: log3,
                        commit_index: ci as i32,
                        last_applied: la as i32,
                        queue: q2,
                        ..s1
                    },
                    reply_to(sender, s1.current_term, lli as i32, true),
                )
            } else {
                (StateModel { log: log3, ..s1 }, reply_to(sender, s1.current_term, lli as i32, true))
            }
        }
    }
}

pub open spec fn follower_step(s: StateModel, sender: i32, m: EventsModel) -> (
    StateModel,
    Seq<(i32, EventsModel)>,
) {
    match m {
        EventsModel::AppendEntryRequest(r) => follower_append(s, sender, r),
        _ => (s, Seq::empty()),
    }
}

/// The leader's handling of a client enqueue: build the entry with the next
/// 1-based ordinal and the current term, append it, and broadcast an append
/// request (whose `prev` fields describe the log before the append) to every
/// other view member.
pub open spec fn leader_enqueue(s: StateModel, req: ClientEnqueueRequest) -> (
    StateModel,
    Seq<(i32, EventsModel)>,
) {
    if s.log.len() + 1 >= LOG_LIMIT {
        // machine limit: the next 1-based ordinal must fit an i32
        (s, Seq::empty())
    } else {
        let entry = LogEntry {
            index: (s.log.len() + 1) as i32,
            term: s.current_term,
            operation: Some(Operation::Enqueue),
            requester: Some(req.client_id),
            arguments: Some(req.val),
        };
        let aer = AppendEntryRequestModel {
            term: s.current_term,
            leader_id: s.current_leader,
            prev_log_index: s.log.len() as i32,
            prev_log_term: spec_last_log_term(s.log),
            entries: seq![entry],
            leader_commit: s.commit_index,
        };
        (
            StateModel { log: s.log.push(entry), ..s },
            broadcast_targets(s.view, s.id).map_values(
                |t: i32| (t, EventsModel::AppendEntryRequest(aer)),
            ),
        )
    }
}

/// The leader's handling of a follower's reply: step down on a larger term;
/// on success record the follower's progress, and when a majority of the
/// recorded indices reach the acknowledged one and the entry there carries
/// the current term, apply up to two entries, acknowledge each applied
/// enqueue to its requester, and advance the commit point.
pub open spec fn leader_response(s: StateModel, sender: i32, resp: AppendEntryResponse) -> (
    StateModel,
    Seq<(i32, EventsModel)>,
) {
    if resp.term > s.current_term {
        (
            StateModel { current_term: resp.term, is_leader: false, is_candidate: false, ..s },
            Seq::empty(),
        )
    } else if !resp.success {
        (s, Seq::empty())
    } else if resp.log_index == i32::MAX {
        // machine limit: the follower's next index must fit an i32
        (s, Seq::empty())
    } else {
        let ni = assoc_set(s.next_index, sender, (resp.log_index + 1) as i32);
        let mi = assoc_set(s.match_index, sender, resp.log_index);
        let s1 = StateModel { next_index: ni, match_index: mi, ..s };
        if count_ge(mi, resp.log_index) > s.view.len() / 2 && has_entry(
            s.log,
            resp.log_index as int,
        ) && entry_at(s.log, resp.log_index as int).term == s.current_term && entry_at(
            s.log,
            resp.log_index as int,
        ).index > s.commit_index && resp.log_index > s.last_applied {
            let la1 = s.last_applied + 1;
            let la2 = if la1 < resp.log_index {
                la1 + 1
            } else {
                la1 as int
            };
            let q2 = apply_range(s.queue, s.log, s.last_applied as int, la2);
            let out = commit_outbox(s.log, s.last_applied as int, la2);
            (
                StateModel {
                    commit_index: resp.log_index,
                    last_applied: la2 as i32,
                    queue: q2,
                    ..s1
                },
                out,
            )
        } else {
            (s1, Seq::empty())
        }
    }
}

pub open spec fn leader_step(s: StateModel, sender: i32, m: EventsModel) -> (
    StateModel,
    Seq<(i32, EventsModel)>,
) {
    match m {
        EventsModel::ClientEnqueueRequest(req) => leader_enqueue(s, req),
        EventsModel::AppendEntryResponse(resp) => leader_response(s, sender, resp),
        _ => (s, Seq::empty()),
    }
}

/// One dispatch of an inbound event by role. A candidate only observes.
pub open spec fn step(s: StateModel, sender: i32, m: EventsModel) -> (
    StateModel,
    Seq<(i32, EventsModel)>,
) {
    if s.is_leader {
        leader_step(s, sender, m)
    } else if s.is_candidate {
        (s, Seq::empty())
    } else {
        follower_step(s, sender, m)
    }
}

/// The models of a typed outbox.
pub open spec fn models_of(s: Seq<(i32, Events)>) -> Seq<(i32, EventsModel)> {
    s.map_values(|p: (i32, Events)| (p.0, p.1@))
}

/// The state every instance starts from.
pub open spec fn initial_state(id: i32) -> StateModel {
    StateModel {
        id,
        view: seq![1i32, 2i32, 3i32],
        current_leader: 1,
        min_election_timeout: 0,
        max_election_timeout: 0,
        election_timer: 0,
        heartbeat_timeout: 0,
        heartbeat_timer: 0,
        current_term: 1,
        voted_for: -1i32,
        log: Seq::empty(),
        commit_index: 0,
        last_applied: 0,
        is_leader: false,
        is_candidate: false,
        next_index: Seq::empty(),
        match_index: Seq::empty(),
        queue: Seq::empty(),
    }
}

/// The well-formedness every reachable instance state keeps: the applied
/// point never passes the commit point, the commit point never passes the
/// log's end, ordinals fit an `i32`, and the queue is the replay of the
/// applied prefix.
pub open spec fn state_inv(s: StateModel) -> bool {
    &&& 0 <= s.last_applied <= s.commit_index <= s.log.len()
    &&& s.log.len() < LOG_LIMIT
    &&& s.queue == replay(s.log, s.last_applied as int)
}

/// An instance of the replication state machine. One lives inside each
/// guest; the host reaches it only through the exported entry points.
pub struct InstanceState {
    pub id: i32,
    pub view: Vec<i32>,
    pub current_leader: i32,
    pub min_election_timeout: i32,
    pub max_election_timeout: i32,
    pub election_timer: i32,
    pub heartbeat_timeout: i32,
    pub heartbeat_timer: i32,
    pub current_term: i32,
    pub voted_for: i32,
    pub log: Vec<LogEntry>,
    pub commit_index: i32,
    pub last_applied: i32,
    pub is_leader: bool,
    pub is_candidate: bool,
    pub next_index: Vec<(i32, i32)>,
    pub match_index: Vec<(i32, i32)>,
    pub queue: Vec<i32>,
}

impl View for InstanceState {
    type V = StateModel;

    open spec fn view(&self) -> StateModel {
        StateModel {
            id: self.id,
            view: self.view@,
            current_leader: self.current_leader,
            min_election_timeout: self.min_election_timeout,
            max_election_timeout: self.max_election_timeout,
            election_timer: self.election_timer,
            heartbeat_timeout: self.heartbeat_timeout,
            heartbeat_timer: self.heartbeat_timer,
            current_term: self.current_term,
            voted_for: self.voted_for,
            log: self.log@,
            commit_index: self.commit_index,
            last_applied: self.last_applied,
            is_leader: self.is_leader,
            is_candidate: self.is_candidate,
            next_index: self.next_index@,
            match_index: self.match_index@,
            queue: self.queue@,
        }
    }
}

impl Default for InstanceState {
    fn default() -> (r: Self)
        ensures
            r@ == initial_state(-1i32),
    {
        Self::new(-1)
    }
}

impl InstanceState {
    /// A fresh instance with the given id; the static view is `[1, 2, 3]`
    /// and instance 1 is taken as the initial leader.
    pub fn new(id: i32) -> (r: Self)
        ensures
            r@ == initial_state(id),
    {
        let mut view: Vec<i32> = Vec::new();
        view.push(1);
        view.push(2);
        view.push(3);
        let r = InstanceState {
            id,
            view,
            current_leader: 1,
            min_election_timeout: 0,
            max_election_timeout: 0,
            election_timer: 0,
            heartbeat_timeout: 0,
            heartbeat_timer: 0,
            current_term: 1,
            voted_for: -1,
            log: Vec::new(),
            commit_index: 0,
            last_applied: 0,
            is_leader: false,
            is_candidate: false,
            next_index: Vec::new(),
            match_index: Vec::new(),
            queue: Vec::new(),
        };
        proof {
            assert_seqs_equal!(r@.view == initial_state(id).view);
            assert(r@ =~= initial_state(id));
        }
        r
    }

    /// The instance's own id, as the host export reports it.
    pub fn get_instance(&self) -> (r: i32)
        ensures
            r == self@.id,
    {
        self.id
    }

    /// Make this instance the leader; idempotent, touches nothing else.
    pub fn make_leader_host(&mut self)
        ensures
            final(self)@ == (StateModel { is_leader: true, ..old(self)@ }),
    {
        self.is_leader = true;
    }

    /// The last 1-based log ordinal; 0 when the log is empty.
    pub fn get_last_log_index(&self) -> (r: i32)
        requires
            self@.log.len() < LOG_LIMIT,
        ensures
            r as int == spec_last_log_index(self@.log),
    {
        self.log.len() as i32
    }

    pub fn get_last_log_term(&self) -> (r: i32)
        ensures
            r == spec_last_log_term(self@.log),
    {
        if self.log.len() == 0 {
            return 0;
        }
        self.log[self.log.len() - 1].term
    }

    /// The entry at 1-based ordinal `index`, when there is one.
    pub fn get_log_entry(&self, index: i32) -> (r: Option<LogEntry>)
        ensures
            match r {
                Some(e) => has_entry(self@.log, index as int) && e == entry_at(
                    self@.log,
                    index as int,
                ),
                None => !has_entry(self@.log, index as int),
            },
    {
        if index < 1 {
            return None;
        }
        let i = index as usize;
        if i <= self.log.len() {
            Some(self.log[i - 1])
        } else {
            None
        }
    }

    /// Whether ordinal `index` names an entry.
    pub fn logged(&self, index: i32) -> (r: bool)
        ensures
            r == has_entry(self@.log, index as int),
    {
        index >= 1 && (index as usize) <= self.log.len()
    }

    /// Discard the entry at ordinal `index` and everything after it; out of
    /// range ordinals leave the log alone.
    pub fn truncate_log_at_index(&mut self, index: i32)
        ensures
            final(self)@ == (StateModel {
                log: if has_entry(old(self)@.log, index as int) {
                    old(self)@.log.take(index as int - 1)
                } else {
                    old(self)@.log
                },
                ..old(self)@
            }),
    {
        if index < 1 || (index as usize) > self.log.len() {
            proof {
                assert(final(self)@ =~= old(self)@);
            }
            return ;
        }
        self.log.truncate((index - 1) as usize);
        proof {
            assert(final(self)@ =~= (StateModel {
                log: old(self)@.log.take(index as int - 1),
                ..old(self)@
            }));
        }
    }

    /// Append all of `entries` at the end of the log.
    pub fn add_log_entries(&mut self, entries: Vec<LogEntry>)
        ensures
            final(self)@ == (StateModel { log: old(self)@.log + entries@, ..old(self)@ }),
    {
        let mut i: usize = 0;
        while i < entries.len()
            invariant
                0 <= i <= entries@.len(),
                self@ == (StateModel {
                    log: old(self)@.log + entries@.subrange(0, i as int),
                    ..old(self)@
                }),
            decreases entries@.len() - i,
        {
            self.log.push(entries[i]);
            proof {
                assert_seqs_equal!(
                    old(self)@.log + entries@.subrange(0, i as int + 1)
                    == (old(self)@.log + entries@.subrange(0, i as int)).push(entries@[i as int])
                );
                assert(self@ =~= (StateModel {
                    log: old(self)@.log + entries@.subrange(0, i as int + 1),
                    ..old(self)@
                }));
            }
            i = i + 1;
        }
        proof {
            assert_seqs_equal!(entries@.subrange(0, entries@.len() as int) == entries@);
            assert(final(self)@ =~= (StateModel { log: old(self)@.log + entries@, ..old(self)@ }));
        }
    }

    /// Apply the entry at ordinal `index` to the queue and hand back the
    /// acknowledgement it produces, when it produces one. Ordinals out of
    /// range change nothing.
    pub fn commit_log_index(&mut self, index: i32) -> (r: Option<Events>)
        ensures
            final(self)@ == (StateModel {
                queue: if has_entry(old(self)@.log, index as int) {
                    apply_entry(old(self)@.queue, entry_at(old(self)@.log, index as int))
                } else {
                    old(self)@.queue
                },
                ..old(self)@
            }),
            match r {
                Some(ev) => has_entry(old(self)@.log, index as int) && response_of(
                    entry_at(old(self)@.log, index as int),
                ) is Some && ev@ == EventsModel::ClientEnqueueResponse(
                    response_of(entry_at(old(self)@.log, index as int)).unwrap(),
                ),
                None => !has_entry(old(self)@.log, index as int) || response_of(
                    entry_at(old(self)@.log, index as int),
                ) is None,
            },
    {
        if index < 1 || (index as usize) > self.log.len() {
            proof {
                assert(final(self)@ =~= old(self)@);
            }
            return None;
        }
        let entry = self.log[(index - 1) as usize];
        match entry.operation {
            Some(Operation::Enqueue) => {
                match (entry.arguments, entry.requester) {
                    (Some(value), Some(rq)) => {
                        self.queue.push(value);
                        proof {
                            assert(final(self)@ =~= (StateModel {
                                queue: apply_entry(
                                    old(self)@.queue,
                                    entry_at(old(self)@.log, index as int),
                                ),
                                ..old(self)@
                            }));
                        }
                        Some(
                            Events::ClientEnqueueResponse(
                                ClientEnqueueResponse {
                                    val: value,
                                    client_id: rq,
                                    log_index: entry.index,
                                },
                            ),
                        )
                    },
                    (Some(value), None) => {
                        self.queue.push(value);
                        proof {
                            assert(final(self)@ =~= (StateModel {
                                queue: apply_entry(
                                    old(self)@.queue,
                                    entry_at(old(self)@.log, index as int),
                                ),
                                ..old(self)@
                            }));
                        }
                        None
                    },
                    _ => {
                        proof {
                            assert(final(self)@ =~= old(self)@);
                        }
                        None
                    },
                }
            },
            Some(Operation::Dequeue) => {
                if self.queue.len() > 0 {
                    self.queue.remove(0);
                    proof {
                        assert_seqs_equal!(
                            old(self)@.queue.remove(0) == old(self)@.queue.skip(1)
                        );
                        assert(final(self)@ =~= (StateModel {
                            queue: apply_entry(
                                old(self)@.queue,
                                entry_at(old(self)@.log, index as int),
                            ),
                            ..old(self)@
                        }));
                    }
                }
                None
            },
            _ => {
                proof {
                    assert(final(self)@ =~= old(self)@);
                }
                None
            },
        }
    }

    /// The election timer is declared but never armed; resetting it is a
    /// no-op.
    pub fn reset_election_timer(&mut self)
        ensures
            final(self)@ == old(self)@,
    {
    }

    /// Handle one event as a leader.
    #[verifier::loop_isolation(false)]
    pub fn leader_receive(&mut self, sender: i32, event: Events) -> (out: Vec<(i32, Events)>)
        ensures
            final(self)@ == leader_step(old(self)@, sender, event@).0,
            models_of(out@) == leader_step(old(self)@, sender, event@).1,
    {
        let ghost s0 = old(self)@;
        match event {
            Events::ClientEnqueueRequest(req) => {
                if self.log.len() >= LOG_LIMIT - 1 {
                    return empty_outbox();
                }
                let last_index = self.get_last_log_index();
                let last_term = self.get_last_log_term();
                let term = self.current_term;
                let leader_id = self.current_leader;
                let commit = self.commit_index;
                let log_entry = LogEntry::enqueue(last_index + 1, term, req.client_id, req.val);
                self.log.push(log_entry);
                let ghost aer = AppendEntryRequestModel {
                    term,
                    leader_id,
                    prev_log_index: last_index,
                    prev_log_term: last_term,
                    entries: seq![log_entry],
                    leader_commit: commit,
                };
                proof {
                    assert(self@ =~= leader_enqueue(s0, ClientEnqueueRequest {
                        val: req.val,
                        client_id: req.client_id,
                    }).0);
                }
                let ghost f = |t: i32| (t, EventsModel::AppendEntryRequest(aer));
                let mut out: Vec<(i32, Events)> = Vec::new();
                let mut i: usize = 0;
                while i < self.view.len()
                    invariant
                        0 <= i <= self.view@.len(),
                        models_of(out@) == broadcast_targets(
                            self.view@.subrange(0, i as int),
                            s0.id,
                        ).map_values(f),
                    decreases self.view@.len() - i,
                {
                    let ghost pre_targets = broadcast_targets(
                        self.view@.subrange(0, i as int),
                        s0.id,
                    );
                    let ghost out_pre = out@;
                    let target = self.view[i];
                    if target != self.id {
                        let mut entries_v: Vec<LogEntry> = Vec::new();
                        entries_v.push(log_entry);
                        proof {
                            assert_seqs_equal!(entries_v@ == seq![log_entry]);
                        }
                        let ev = Events::AppendEntryRequest(
                            AppendEntryRequest {
                                term,
                                leader_id,
                                prev_log_index: last_index,
                                prev_log_term: last_term,
                                entries: entries_v,
                                leader_commit: commit,
                            },
                        );
                        proof {
                            assert(ev@ =~= EventsModel::AppendEntryRequest(aer));
                        }
                        out.push((target, ev));
                    }
                    proof {
                        let sub1 = self.view@.subrange(0, i as int + 1);
                        assert_seqs_equal!(sub1.drop_last() == self.view@.subrange(0, i as int));
                        assert(sub1.last() == self.view@[i as int]);
                        let t1 = broadcast_targets(sub1, s0.id);
                        assert(t1 == pre_targets + if self.view@[i as int] != s0.id {
                            seq![self.view@[i as int]]
                        } else {
                            Seq::<i32>::empty()
                        });
                        assert(models_of(out@).len() == t1.map_values(f).len());
                        assert forall|k: int| 0 <= k < models_of(out@).len() implies models_of(
                            out@,
                        )[k] == #[trigger] t1.map_values(f)[k] by {
                            assert(models_of(out@)[k] == (out@[k].0, out@[k].1@));
                            assert(t1.map_values(f)[k] == f(t1[k]));
                            if k < out_pre.len() {
                                assert(out@[k] == out_pre[k]);
                                assert(models_of(out_pre)[k] == pre_targets.map_values(f)[k]);
                                assert(t1[k] == pre_targets[k]);
                            } else {
                                assert(t1[k] == self.view@[i as int]);
                            }
                        }
                        assert_seqs_equal!(models_of(out@) == t1.map_values(f));
                    }
                    i = i + 1;
                }
                proof {
                    assert_seqs_equal!(self.view@.subrange(0, self.view@.len() as int)
                        == self.view@);
                }
                out
            },
            Events::AppendEntryResponse(resp) => {
                if resp.term > self.current_term {
                    self.current_term = resp.term;
                    self.is_leader = false;
                    self.is_candidate = false;
                    proof {
                        assert(self@ =~= leader_response(s0, sender, resp).0);
                    }
                    return empty_outbox();
                }
                if !resp.success {
                    return empty_outbox();
                }
                if resp.log_index == i32::MAX {
                    return empty_outbox();
                }
                assoc_set_vec(&mut self.next_index, sender, resp.log_index + 1);
                assoc_set_vec(&mut self.match_index, sender, resp.log_index);
                let cnt = count_at_least(&self.match_index, resp.log_index);
                let ghost s1 = self@;
                if cnt > self.view.len() / 2 {
                    let maybe_entry = self.get_log_entry(resp.log_index);
                    let do_commit = match maybe_entry {
                        Some(e) => e.term == self.current_term && e.index > self.commit_index,
                        None => false,
                    };
                    if do_commit && resp.log_index > self.last_applied {
                        let ghost la0 = self@.last_applied as int;
                        let mut outv: Vec<(i32, Events)> = Vec::new();
                        self.last_applied = self.last_applied + 1;
                        let idx1 = self.last_applied;
                        commit_and_ack(self, &mut outv, idx1);
                        proof {
                            assert(apply_range(s0.queue, s0.log, la0, la0) == s0.queue);
                            assert(commit_outbox(s0.log, la0, la0)
                                == Seq::<(i32, EventsModel)>::empty());
                            assert(self@.queue == apply_range(s0.queue, s0.log, la0, la0 + 1));
                            assert_seqs_equal!(models_of(outv@)
                                == commit_outbox(s0.log, la0, la0 + 1));
                        }
                        if self.last_applied < resp.log_index {
                            self.last_applied = self.last_applied + 1;
                            let idx2 = self.last_applied;
                            commit_and_ack(self, &mut outv, idx2);
                            proof {
                                assert(self@.queue == apply_range(s0.queue, s0.log, la0, la0 + 2));
                                assert_seqs_equal!(models_of(outv@)
                                    == commit_outbox(s0.log, la0, la0 + 2));
                            }
                        }
                        self.commit_index = resp.log_index;
                        proof {
                            assert(self@ =~= leader_response(s0, sender, resp).0);
                            assert(models_of(outv@) == leader_response(s0, sender, resp).1);
                        }
                        return outv;
                    } else {
                        proof {
                            assert(self@ =~= leader_response(s0, sender, resp).0);
                        }
                        return empty_outbox();
                    }
                } else {
                    proof {
                        assert(self@ =~= leader_response(s0, sender, resp).0);
                    }
                    return empty_outbox();
                }
            },
            _ => empty_outbox(),
        }
    }

    /// Handle one event as a candidate: elections are out of scope, so a
    /// candidate only observes and changes nothing.
    pub fn candidate_receive(&mut self, sender: i32, event: Events) -> (out: Vec<(i32, Events)>)
        ensures
            final(self)@ == old(self)@,
            models_of(out@) == Seq::<(i32, EventsModel)>::empty(),
    {
        empty_outbox()
    }

    /// Handle one event as a follower.
    #[verifier::loop_isolation(false)]
    pub fn follower_receive(&mut self, sender: i32, event: Events) -> (out: Vec<(i32, Events)>)
        ensures
            final(self)@ == follower_step(old(self)@, sender, event@).0,
            models_of(out@) == follower_step(old(self)@, sender, event@).1,
    {
        let ghost s0 = old(self)@;
        match event {
            Events::AppendEntryRequest(req) => {
                let ghost rm = req@;
                if req.term < self.current_term {
                    return reply_vec(sender, self.current_term, req.prev_log_index, false);
                }
                if req.entries.len() >= LOG_LIMIT || self.log.len() >= LOG_LIMIT
                    - req.entries.len() {
                    return empty_outbox();
                }
                proof {
                    assert(s0.log.len() + rm.entries.len() < LOG_LIMIT);
                }
                self.current_term = req.term;
                if self.current_leader != req.leader_id {
                    self.current_leader = req.leader_id;
                }
                let ghost s1 = self@;
                proof {
                    assert(s1 =~= (StateModel {
                        current_term: rm.term,
                        current_leader: rm.leader_id,
                        ..s0
                    }));
                }
                if req.prev_log_index == 0 && req.prev_log_term == 0 && req.entries.len() == 0
                    && self.log.len() == 0 {
                    return reply_vec(sender, self.current_term, req.prev_log_index, true);
                }
                if req.prev_log_index > 0 {
                    let consistent = match self.get_log_entry(req.prev_log_index) {
                        Some(en) => en.term == req.prev_log_term,
                        None => false,
                    };
                    if !consistent {
                        return reply_vec(sender, self.current_term, req.prev_log_index, false);
                    }
                }
                let append_index = req.prev_log_index + 1;
                if self.logged(append_index) {
                    let entry = match self.get_log_entry(append_index) {
                        Some(e) => e,
                        None => {
                            proof {
                                assert(false);
                            }
                            LogEntry::empty()
                        },
                    };
                    if req.entries.len() == 0 {
                        self.truncate_log_at_index(append_index);
                    } else if entry.term != req.entries[0].term {
                        self.truncate_log_at_index(append_index);
                    }
                }
                let ghost log2 = self@.log;
                self.add_log_entries(req.entries);
                let ghost log3 = self@.log;
                proof {
                    assert(log3 == log2 + rm.entries);
                }
                if req.leader_commit > self.commit_index {
                    let lli = self.get_last_log_index();
                    let ci = if req.leader_commit < lli {
                        req.leader_commit
                    } else {
                        lli
                    };
                    self.commit_index = ci;
                    let ghost la0 = self@.last_applied as int;
                    let ghost q0 = self@.queue;
                    let ghost mid = self@;
                    while self.last_applied < ci
                        invariant
                            self@ == (StateModel {
                                last_applied: self@.last_applied,
                                queue: apply_range(q0, log3, la0, self@.last_applied as int),
                                ..mid
                            }),
                            la0 <= self@.last_applied as int,
                            self@.last_applied as int <= ci as int || self@.last_applied as int
                                == la0,
                        decreases ci as int - self@.last_applied as int,
                    {
                        self.last_applied = self.last_applied + 1;
                        let _ = self.commit_log_index(self.last_applied);
                        proof {
                            assert(self@ =~= (StateModel {
                                last_applied: self@.last_applied,
                                queue: apply_range(q0, log3, la0, self@.last_applied as int),
                                ..mid
                            }));
                        }
                    }
                    proof {
                        assert(self@ =~= follower_append(s0, sender, rm).0);
                    }
                    return reply_vec(sender, self.current_term, lli, true);
                } else {
                    let lli = self.get_last_log_index();
                    proof {
                        assert(self@ =~= follower_append(s0, sender, rm).0);
                    }
                    return reply_vec(sender, self.current_term, lli, true);
                }
            },
            _ => empty_outbox(),
        }
    }

    /// Dispatch one inbound event by the instance's current role.
    pub fn receive_event(&mut self, sender: i32, event: Events) -> (out: Vec<(i32, Events)>)
        ensures
            final(self)@ == step(old(self)@, sender, event@).0,
            models_of(out@) == step(old(self)@, sender, event@).1,
    {
        if self.is_leader {
            self.leader_receive(sender, event)
        } else if self.is_candidate {
            self.candidate_receive(sender, event)
        } else {
            self.follower_receive(sender, event)
        }
    }

    /// Decode one inbound message, dispatch it, and encode the replies. A
    /// message the codec rejects changes nothing and is answered by nothing.
    #[verifier::loop_isolation(false)]
    pub fn receive_message(&mut self, sender: i32, message: &Vec<u8>) -> (out: Vec<
        (i32, Vec<u8>),
    >)
        ensures
            match spec_dec_event(message@) {
                Some(m) => {
                    &&& final(self)@ == step(old(self)@, sender, m).0
                    &&& out@.len() == step(old(self)@, sender, m).1.len()
                    &&& forall|k: int|
                        0 <= k < out@.len() ==> out@[k].0 == step(old(self)@, sender, m).1[k].0
                            && out@[k].1@ == spec_enc_event(step(old(self)@, sender, m).1[k].1)
                },
                None => final(self)@ == old(self)@ && out@.len() == 0,
            },
    {
        let ev = match decode_event(message) {
            Some(ev) => ev,
            None => {
                return Vec::new();
            },
        };
        let ghost m = ev@;
        proof {
            lemma_step_outbox_wf(old(self)@, sender, m);
        }
        let typed = self.receive_event(sender, ev);
        let ghost spec_out = step(old(self)@, sender, m).1;
        let mut out: Vec<(i32, Vec<u8>)> = Vec::new();
        let mut i: usize = 0;
        while i < typed.len()
            invariant
                0 <= i <= typed@.len(),
                out@.len() == i,
                forall|k: int|
                    0 <= k < i ==> out@[k].0 == spec_out[k].0 && out@[k].1@ == spec_enc_event(
                        spec_out[k].1,
                    ),
            decreases typed@.len() - i,
        {
            let pair = &typed[i];
            proof {
                assert(models_of(typed@)[i as int] == (typed@[i as int].0, typed@[i as int].1@));
                assert(event_wf(spec_out[i as int].1));
            }
            let bytes = encode_event(&pair.1);
            out.push((pair.0, bytes));
            i = i + 1;
        }
        out
    }
}

/// The interface each guest exposes to its host: one initialization and one
/// entry point per delivered message, which hands back the messages to send
/// in turn.
pub trait Actor {
    fn init(&mut self);

    fn receive(&mut self, sender: i32, message: &Vec<u8>) -> Vec<(i32, Vec<u8>)>;
}

impl Actor for InstanceState {
    fn init(&mut self) {
    }

    fn receive(&mut self, sender: i32, message: &Vec<u8>) -> Vec<(i32, Vec<u8>)> {
        self.receive_message(sender, message)
    }
}

/// Build the encoded enqueue request a client sends to the leader.
pub fn client_enqueue(value: i32, leader: i32, client_id: i32) -> (r: (i32, Vec<u8>))
    ensures
        r.0 == leader,
        r.1@ == spec_enc_event(
            EventsModel::ClientEnqueueRequest(ClientEnqueueRequest { val: value, client_id }),
        ),
{
    let ev = Events::ClientEnqueueRequest(ClientEnqueueRequest::new(value, client_id));
    let bytes = encode_event(&ev);
    (leader, bytes)
}

/// An empty outbox.
fn empty_outbox() -> (r: Vec<(i32, Events)>)
    ensures
        models_of(r@) == Seq::<(i32, EventsModel)>::empty(),
{
    let r: Vec<(i32, Events)> = Vec::new();
    proof {
        assert_seqs_equal!(models_of(r@) == Seq::<(i32, EventsModel)>::empty());
    }
    r
}

/// An outbox holding one reply to `sender`.
fn reply_vec(sender: i32, term: i32, log_index: i32, success: bool) -> (r: Vec<(i32, Events)>)
    ensures
        models_of(r@) == reply_to(sender, term, log_index, success),
{
    let mut r: Vec<(i32, Events)> = Vec::new();
    r.push(
        (sender, Events::AppendEntryResponse(AppendEntryResponse { term, log_index, success })),
    );
    proof {
        assert_seqs_equal!(models_of(r@) == reply_to(sender, term, log_index, success));
    }
    r
}

/// Apply the entry at ordinal `index` and append the acknowledgement it
/// produces, if any, to `outv`.
fn commit_and_ack(st: &mut InstanceState, outv: &mut Vec<(i32, Events)>, index: i32)
    ensures
        final(st)@ == (StateModel {
            queue: if has_entry(old(st)@.log, index as int) {
                apply_entry(old(st)@.queue, entry_at(old(st)@.log, index as int))
            } else {
                old(st)@.queue
            },
            ..old(st)@
        }),
        models_of(final(outv)@) == models_of(old(outv)@) + ack_of(old(st)@.log, index as int),
{
    let r = st.commit_log_index(index);
    match r {
        Some(ev) => {
            let ghost evm = ev@;
            let target = match &ev {
                Events::ClientEnqueueResponse(c) => c.client_id,
                _ => {
                    proof {
                        assert(false);
                    }
                    0
                },
            };
            outv.push((target, ev));
            proof {
                assert_seqs_equal!(models_of(outv@)
                    == models_of(old(outv)@) + ack_of(old(st)@.log, index as int));
            }
        },
        None => {
            proof {
                assert_seqs_equal!(models_of(outv@)
                    == models_of(old(outv)@) + ack_of(old(st)@.log, index as int));
            }
        },
    }
}

/// Replace the binding of `k` in place, or append one.
fn assoc_set_vec(v: &mut Vec<(i32, i32)>, k: i32, value: i32)
    ensures
        final(v)@ == assoc_set(old(v)@, k, value),
{
    let mut i: usize = 0;
    while i < v.len()
        invariant
            0 <= i <= v@.len(),
            v@ == old(v)@,
            forall|j: int| 0 <= j < i ==> v@[j].0 != k,
        decreases v@.len() - i,
    {
        if v[i].0 == k {
            v.remove(i);
            v.insert(i, (k, value));
            proof {
                lemma_assoc_set_found(old(v)@, k, value, i as int);
                assert_seqs_equal!(v@ == assoc_set(old(v)@, k, value));
            }
            return ;
        }
        i = i + 1;
    }
    v.push((k, value));
    proof {
        lemma_assoc_set_absent(old(v)@, k, value);
    }
}

/// How many recorded indices are at least `x`.
fn count_at_least(v: &Vec<(i32, i32)>, x: i32) -> (r: usize)
    ensures
        r == count_ge(v@, x),
{
    let mut cnt: usize = 0;
    let mut i: usize = 0;
    while i < v.len()
        invariant
            0 <= i <= v@.len(),
            cnt <= i,
            cnt == count_ge(v@.subrange(0, i as int), x),
        decreases v@.len() - i,
    {
        proof {
            assert_seqs_equal!(v@.subrange(0, i as int + 1).drop_last()
                == v@.subrange(0, i as int));
            assert(v@.subrange(0, i as int + 1).last() == v@[i as int]);
        }
        if v[i].1 >= x {
            cnt = cnt + 1;
        }
        i = i + 1;
    }
    proof {
        assert_seqs_equal!(v@.subrange(0, v@.len() as int) == v@);
    }
    cnt
}

proof fn lemma_assoc_set_found(s: Seq<(i32, i32)>, k: i32, v: i32, i: int)
    requires
        0 <= i < s.len(),
        s[i].0 == k,
        forall|j: int| 0 <= j < i ==> s[j].0 != k,
    ensures
        assoc_set(s, k, v) == s.update(i, (k, v)),
    decreases i,
{
    if i == 0 {
        assert_seqs_equal!(seq![(k, v)] + s.skip(1) == s.update(0, (k, v)));
    } else {
        lemma_assoc_set_found(s.skip(1), k, v, i - 1);
        assert_seqs_equal!(seq![s[0]] + s.skip(1).update(i - 1, (k, v)) == s.update(i, (k, v)));
    }
}

proof fn lemma_assoc_set_absent(s: Seq<(i32, i32)>, k: i32, v: i32)
    requires
        forall|j: int| 0 <= j < s.len() ==> s[j].0 != k,
    ensures
        assoc_set(s, k, v) == s.push((k, v)),
    decreases s.len(),
{
    if s.len() == 0 {
        assert_seqs_equal!(assoc_set(s, k, v) == s.push((k, v)));
    } else {
        lemma_assoc_set_absent(s.skip(1), k, v);
        assert_seqs_equal!(seq![s[0]] + s.skip(1).push((k, v)) == s.push((k, v)));
    }
}

/// Every message a step sends can be encoded: replies and acknowledgements
/// carry no entry list, and a broadcast request carries exactly one entry.
pub proof fn lemma_step_outbox_wf(s: StateModel, sender: i32, m: EventsModel)
    ensures
        forall|k: int|
            0 <= k < step(s, sender, m).1.len() ==> event_wf(#[trigger] step(s, sender, m).1[k].1),
{
    let outbox = step(s, sender, m).1;
    if s.is_leader {
        match m {
            EventsModel::ClientEnqueueRequest(req) => {
                if s.log.len() + 1 < LOG_LIMIT {
                    assert forall|k: int| 0 <= k < outbox.len() implies event_wf(
                        #[trigger] outbox[k].1,
                    ) by {
                        let targets = broadcast_targets(s.view, s.id);
                        assert(outbox[k] == (targets[k], outbox[k].1));
                    }
                }
            },
            EventsModel::AppendEntryResponse(resp) => {
                lemma_commit_outbox_wf(s.log, s.last_applied as int, s.last_applied + 2);
                lemma_commit_outbox_wf(s.log, s.last_applied as int, s.last_applied + 1);
            },
            _ => {},
        }
    }
}

proof fn lemma_commit_outbox_wf(log: Seq<LogEntry>, from: int, to: int)
    ensures
        forall|k: int|
            0 <= k < commit_outbox(log, from, to).len() ==> event_wf(
                #[trigger] commit_outbox(log, from, to)[k].1,
            ),
    decreases to - from,
{
    if to > from {
        lemma_commit_outbox_wf(log, from, to - 1);
        let pre = commit_outbox(log, from, to - 1);
        let cur = commit_outbox(log, from, to);
        assert(cur == pre + ack_of(log, to));
        assert forall|k: int| 0 <= k < cur.len() implies event_wf(#[trigger] cur[k].1) by {
            if k < pre.len() {
                assert(cur[k] == pre[k]);
            } else {
                assert(cur[k] == ack_of(log, to)[k - pre.len()]);
            }
        }
    }
}

} // verus!
