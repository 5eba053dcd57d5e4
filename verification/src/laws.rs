//! The laws of the replication machine, proved about the spec transition
//! `step` that every handler's `ensures` equals: the bounds invariant
//! between applied point, commit point and log length; the term carried by
//! a committed entry; the agreement of followers that accept the same
//! append; the queue as the projection of applied enqueues; and the
//! majority behind every acknowledgement.

use vstd::prelude::*;

use crate::messages::{
    Operation, LogEntry, AppendEntryRequestModel, AppendEntryResponse, EventsModel,
};
use crate::instance::{
    StateModel, state_inv, step, leader_step, follower_step, replay, apply_range, has_entry,
    entry_at, count_ge, initial_state, LOG_LIMIT,
};

verus! {

/// Replaying a range reads only the entries it applies: two logs that agree
/// below `to` replay alike.
proof fn lemma_apply_range_agree(
    q: Seq<i32>,
    log1: Seq<LogEntry>,
    log2: Seq<LogEntry>,
    from: int,
    to: int,
)
    requires
        to <= log1.len(),
        to <= log2.len(),
        forall|i: int| 0 <= i < to ==> log1[i] == log2[i],
    ensures
        apply_range(q, log1, from, to) == apply_range(q, log2, from, to),
    decreases to - from,
{
    if to > from {
        lemma_apply_range_agree(q, log1, log2, from, to - 1);
    }
}

/// Replaying `a..c` is replaying `a..b` and then `b..c`.
proof fn lemma_apply_range_concat(q: Seq<i32>, log: Seq<LogEntry>, a: int, b: int, c: int)
    requires
        a <= b <= c,
    ensures
        apply_range(q, log, a, c) == apply_range(apply_range(q, log, a, b), log, b, c),
    decreases c - b,
{
    if c > b {
        lemma_apply_range_concat(q, log, a, b, c - 1);
    }
}

/// The start state of every instance is well formed.
pub proof fn lemma_initial_state_inv(id: i32)
    ensures
        state_inv(initial_state(id)),
{
    assert(replay(initial_state(id).log, 0) == Seq::<i32>::empty());
}

/// When a follower's handling of request `r` discards a log suffix.
pub open spec fn truncates(s: StateModel, r: AppendEntryRequestModel) -> bool {
    let append_index = r.prev_log_index as int + 1;
    &&& r.term >= s.current_term
    &&& s.log.len() + r.entries.len() < LOG_LIMIT
    &&& !(r.prev_log_index == 0 && r.prev_log_term == 0 && r.entries.len() == 0 && s.log.len()
        == 0)
    &&& !(r.prev_log_index > 0 && (!has_entry(s.log, r.prev_log_index as int) || entry_at(
        s.log,
        r.prev_log_index as int,
    ).term != r.prev_log_term))
    &&& has_entry(s.log, append_index)
    &&& (r.entries.len() == 0 || entry_at(s.log, append_index).term != r.entries[0].term)
}

/// The one way a step can break the bounds invariant: a follower is made to
/// truncate committed entries away.
pub open spec fn truncates_below_commit(s: StateModel, m: EventsModel) -> bool {
    match m {
        EventsModel::AppendEntryRequest(r) => !s.is_leader && !s.is_candidate && truncates(s, r)
            && r.prev_log_index < s.commit_index,
        _ => false,
    }
}

/// The applied point never passes the commit point and the commit point
/// never passes the log's end: `state_inv` (and with it the queue-replay
/// correspondence) is preserved by every step that does not truncate
/// committed entries away.
pub proof fn lemma_step_preserves_invariant(s: StateModel, sender: i32, m: EventsModel)
    requires
        state_inv(s),
        !truncates_below_commit(s, m),
    ensures
        state_inv(step(s, sender, m).0),
{
    if s.is_leader {
        match m {
            EventsModel::ClientEnqueueRequest(req) => {
                if s.log.len() + 1 < LOG_LIMIT {
                    let log2 = step(s, sender, m).0.log;
                    lemma_apply_range_agree(
                        Seq::empty(),
                        s.log,
                        log2,
                        0,
                        s.last_applied as int,
                    );
                }
            },
            EventsModel::AppendEntryResponse(resp) => {
                if resp.term > s.current_term {
                } else if !resp.success || resp.log_index == i32::MAX {
                } else {
                    let s2 = step(s, sender, m).0;
                    if s2.commit_index == resp.log_index && resp.log_index > s.last_applied {
                        lemma_apply_range_concat(
                            Seq::empty(),
                            s.log,
                            0,
                            s.last_applied as int,
                            s2.last_applied as int,
                        );
                    }
                }
            },
            _ => {},
        }
    } else if s.is_candidate {
    } else {
        match m {
            EventsModel::AppendEntryRequest(r) => {
                lemma_follower_append_inv(s, sender, r);
            },
            _ => {},
        }
    }
}

proof fn lemma_follower_append_inv(s: StateModel, sender: i32, r: AppendEntryRequestModel)
    requires
        state_inv(s),
        !s.is_leader,
        !s.is_candidate,
        truncates(s, r) ==> r.prev_log_index >= s.commit_index,
    ensures
        state_inv(follower_step(s, sender, EventsModel::AppendEntryRequest(r)).0),
{
    let s2 = follower_step(s, sender, EventsModel::AppendEntryRequest(r)).0;
    if r.term < s.current_term {
    } else if s.log.len() + r.entries.len() >= LOG_LIMIT {
    } else if r.prev_log_index == 0 && r.prev_log_term == 0 && r.entries.len() == 0 && s.log.len()
        == 0 {
    } else if r.prev_log_index > 0 && (!has_entry(s.log, r.prev_log_index as int) || entry_at(
        s.log,
        r.prev_log_index as int,
    ).term != r.prev_log_term) {
    } else {
        let append_index = r.prev_log_index as int + 1;
        let trunc = has_entry(s.log, append_index) && (r.entries.len() == 0 || entry_at(
            s.log,
            append_index,
        ).term != r.entries[0].term);
        let log2 = if trunc {
            s.log.take(append_index - 1)
        } else {
            s.log
        };
        let log3 = log2 + r.entries;
        // the kept prefix reaches at least to the commit point
        assert(s.commit_index <= log2.len());
        assert(forall|i: int| 0 <= i < s.last_applied ==> log3[i] == s.log[i]);
        lemma_apply_range_agree(Seq::empty(), s.log, log3, 0, s.last_applied as int);
        assert(s.queue == replay(log3, s.last_applied as int));
        if r.leader_commit > s.commit_index {
            let lli = log3.len() as int;
            let ci = if r.leader_commit as int <= lli {
                r.leader_commit as int
            } else {
                lli
            };
            assert(ci >= s.commit_index);
            lemma_apply_range_concat(Seq::empty(), log3, 0, s.last_applied as int, ci);
            assert(s2.queue == replay(log3, s2.last_applied as int));
        }
    }
}

/// Every entry a leader commits carries the leader's current term: when a
/// reply makes the leader advance its commit point, the entry at the
/// acknowledged ordinal has the term the leader is in.
pub proof fn lemma_leader_commit_term(s: StateModel, sender: i32, resp: AppendEntryResponse)
    requires
        s.is_leader,
    ensures
        ({
            let s2 = leader_step(s, sender, EventsModel::AppendEntryResponse(resp)).0;
            s2.commit_index != s.commit_index ==> {
                &&& has_entry(s.log, resp.log_index as int)
                &&& entry_at(s.log, resp.log_index as int).term == s2.current_term
                &&& s2.current_term == s.current_term
            }
        }),
{
}

/// Every acknowledgement rests on a majority: when handling a reply makes
/// the leader send anything (the acknowledgements of the applied entries),
/// more than half of the view size of recorded match indices stand at or
/// beyond the acknowledged ordinal.
pub proof fn lemma_commit_has_majority(s: StateModel, sender: i32, resp: AppendEntryResponse)
    requires
        s.is_leader,
    ensures
        ({
            let (s2, out) = leader_step(s, sender, EventsModel::AppendEntryResponse(resp));
            out.len() > 0 ==> count_ge(s2.match_index, resp.log_index) > s.view.len() / 2
        }),
{
}

/// When a follower accepts request `r`, its entries land exactly at the
/// ordinals after `prev_log_index`: the request's consistency checks pass
/// and the kept prefix ends at `prev_log_index`.
pub open spec fn accepts_append(s: StateModel, r: AppendEntryRequestModel) -> bool {
    &&& r.term >= s.current_term
    &&& s.log.len() + r.entries.len() < LOG_LIMIT
    &&& !(r.prev_log_index == 0 && r.prev_log_term == 0 && r.entries.len() == 0 && s.log.len()
        == 0)
    &&& r.prev_log_index >= 0
    &&& (r.prev_log_index > 0 ==> has_entry(s.log, r.prev_log_index as int) && entry_at(
        s.log,
        r.prev_log_index as int,
    ).term == r.prev_log_term)
    &&& (has_entry(s.log, r.prev_log_index as int + 1) ==> (r.entries.len() == 0 || entry_at(
        s.log,
        r.prev_log_index as int + 1,
    ).term != r.entries[0].term))
}

/// After an accepted append, the entry at each appended ordinal is the
/// request's entry for that ordinal.
proof fn lemma_append_lands(s: StateModel, sender: i32, r: AppendEntryRequestModel)
    requires
        !s.is_leader,
        !s.is_candidate,
        accepts_append(s, r),
    ensures
        ({
            let t = follower_step(s, sender, EventsModel::AppendEntryRequest(r)).0;
            forall|k: int|
                0 <= k < r.entries.len() ==> entry_at(
                    t.log,
                    r.prev_log_index as int + 1 + k,
                ) == r.entries[k]
        }),
{
    let t = follower_step(s, sender, EventsModel::AppendEntryRequest(r)).0;
    let append_index = r.prev_log_index as int + 1;
    if has_entry(s.log, append_index) {
        assert(forall|k: int|
            0 <= k < r.entries.len() ==> entry_at(t.log, append_index + k) == r.entries[k]);
    } else {
        if r.prev_log_index > 0 {
            assert(s.log.len() == r.prev_log_index as int);
        } else {
            assert(s.log.len() == 0);
        }
        assert(forall|k: int|
            0 <= k < r.entries.len() ==> entry_at(t.log, append_index + k) == r.entries[k]);
    }
}

/// Two followers that accept the same append request hold bitwise identical
/// entries at every appended ordinal: the agreement a majority
/// acknowledgement rests on, one request at a time.
pub proof fn lemma_followers_agree(
    s1: StateModel,
    s2: StateModel,
    sender1: i32,
    sender2: i32,
    r: AppendEntryRequestModel,
)
    requires
        !s1.is_leader,
        !s1.is_candidate,
        !s2.is_leader,
        !s2.is_candidate,
        accepts_append(s1, r),
        accepts_append(s2, r),
    ensures
        ({
            let t1 = follower_step(s1, sender1, EventsModel::AppendEntryRequest(r)).0;
            let t2 = follower_step(s2, sender2, EventsModel::AppendEntryRequest(r)).0;
            forall|k: int|
                #![trigger r.entries[k]]
                0 <= k < r.entries.len() ==> entry_at(t1.log, r.prev_log_index as int + 1 + k)
                    == entry_at(t2.log, r.prev_log_index as int + 1 + k)
        }),
{
    lemma_append_lands(s1, sender1, r);
    lemma_append_lands(s2, sender2, r);
}

/// The values of the applied enqueue entries among the first `n` ordinals,
/// in log order.
pub open spec fn enqueue_projection(log: Seq<LogEntry>, n: int) -> Seq<i32>
    decreases n,
{
    if n <= 0 {
        Seq::empty()
    } else {
        let pre = enqueue_projection(log, n - 1);
        if has_entry(log, n) && entry_at(log, n).operation == Some(Operation::Enqueue) && entry_at(
            log,
            n,
        ).arguments is Some {
            pre.push(entry_at(log, n).arguments.unwrap())
        } else {
            pre
        }
    }
}

proof fn lemma_replay_no_dequeue(log: Seq<LogEntry>, n: int)
    requires
        forall|i: int|
            0 <= i < n && i < log.len() ==> (#[trigger] log[i].operation) != Some(
                Operation::Dequeue,
            ),
    ensures
        replay(log, n) == enqueue_projection(log, n),
    decreases n,
{
    if n > 0 {
        lemma_replay_no_dequeue(log, n - 1);
    }
}

/// A queue built without dequeues is the ordered projection of the applied
/// enqueue values: in a well-formed state whose applied prefix holds no
/// dequeue entry, `queue` equals that projection.
pub proof fn lemma_queue_is_enqueue_projection(s: StateModel)
    requires
        state_inv(s),
        forall|i: int|
            0 <= i < s.last_applied ==> (#[trigger] s.log[i].operation) != Some(
                Operation::Dequeue,
            ),
    ensures
        s.queue == enqueue_projection(s.log, s.last_applied as int),
{
    lemma_replay_no_dequeue(s.log, s.last_applied as int);
}

} // verus!
