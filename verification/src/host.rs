//! The host side of the runtime: scheduled events, the deadline-ordered
//! per-instance buffer, the simulated-latency delay source, and the host
//! state that owns one mailbox per spawned instance. The scheduler loop
//! itself lives outside; its decisions — what a send appends, what a sweep
//! drains and fires — are the verified functions here.

use vstd::prelude::*;
use vstd::assert_seqs_equal;
use vstd::seq_lib::{to_multiset_insert, to_multiset_remove};

use rand::Rng;

verus! {

/// What an event carries: a named timer, or raw message bytes.
pub enum EventData {
    Timer { timer_name: String },
    RawMessage { message: Vec<u8> },
}

/// One scheduled delivery: the payload becomes deliverable at `fire_time`
/// (epoch milliseconds). Scheduling compares events by `fire_time` alone.
pub struct Event {
    pub fire_time: u128,
    pub sender_id: i32,
    pub data: EventData,
}

impl Event {
    pub fn new(fire_time: u128, sender_id: i32, data: EventData) -> (r: Self)
        ensures
            r == (Event { fire_time, sender_id, data }),
    {
        Self { fire_time, sender_id, data }
    }
}

/// Nondecreasing fire times.
pub open spec fn sorted_by_fire_time(s: Seq<Event>) -> bool {
    forall|i: int, j: int| 0 <= i <= j < s.len() ==> s[i].fire_time <= s[j].fire_time
}

/// The deadline-ordered buffer of pending events: whatever order events
/// arrive in, the earliest deadline leaves first.
pub struct EventBuffer {
    items: Vec<Event>,
}

impl View for EventBuffer {
    type V = Seq<Event>;

    closed spec fn view(&self) -> Seq<Event> {
        self.items@
    }
}

impl EventBuffer {
    pub open spec fn wf(&self) -> bool {
        sorted_by_fire_time(self@)
    }

    pub fn new() -> (r: Self)
        ensures
            r@ == Seq::<Event>::empty(),
            r.wf(),
    {
        EventBuffer { items: Vec::new() }
    }

    pub fn len(&self) -> (r: usize)
        ensures
            r == self@.len(),
    {
        self.items.len()
    }

    /// Whether the earliest pending event is due at `now`.
    pub fn due_at(&self, now: u128) -> (r: bool)
        ensures
            r == (self@.len() > 0 && self@[0].fire_time <= now),
    {
        self.items.len() > 0 && self.items[0].fire_time <= now
    }

    /// File an event under its deadline.
    #[verifier::loop_isolation(false)]
    pub fn push(&mut self, e: Event)
        requires
            old(self).wf(),
        ensures
            final(self).wf(),
            final(self)@.len() == old(self)@.len() + 1,
            final(self)@.to_multiset() == old(self)@.to_multiset().insert(e),
    {
        let n = self.items.len();
        let mut i: usize = 0;
        while i < n && self.items[i].fire_time <= e.fire_time
            invariant
                0 <= i <= n,
                forall|j: int| 0 <= j < i ==> self.items@[j].fire_time <= e.fire_time,
            decreases n - i,
        {
            i = i + 1;
        }
        self.items.insert(i, e);
        proof {
            to_multiset_insert(old(self)@, i as int, e);
            assert forall|p: int, q: int|
                0 <= p <= q < self@.len() implies self@[p].fire_time <= self@[q].fire_time by {
                if p < i && q < i {
                } else if p >= i + 1 && q >= i + 1 {
                    assert(self@[p] == old(self)@[p - 1]);
                    assert(self@[q] == old(self)@[q - 1]);
                } else if q == i {
                    if p < i {
                        assert(self@[p] == old(self)@[p]);
                    }
                } else {
                    // p <= i < q: everything from position i on in the old
                    // buffer fires no earlier than e
                    assert(self@[q] == old(self)@[q - 1]);
                    if p < i {
                        assert(self@[p] == old(self)@[p]);
                    }
                }
            }
        }
    }

    /// Pop the earliest event when it is due at `now`. The event handed out
    /// fires no later than anything left behind, and nothing is handed out
    /// before its deadline.
    pub fn pop_due(&mut self, now: u128) -> (r: Option<Event>)
        requires
            old(self).wf(),
        ensures
            final(self).wf(),
            match r {
                Some(e) => {
                    &&& old(self)@.len() > 0
                    &&& e == old(self)@[0]
                    &&& final(self)@ == old(self)@.skip(1)
                    &&& e.fire_time <= now
                    &&& forall|k: int|
                        0 <= k < final(self)@.len() ==> e.fire_time <= final(self)@[k].fire_time
                },
                None => {
                    &&& final(self)@ == old(self)@
                    &&& forall|k: int| 0 <= k < old(self)@.len() ==> old(self)@[k].fire_time > now
                },
            },
    {
        if self.items.len() == 0 {
            return None;
        }
        if self.items[0].fire_time > now {
            return None;
        }
        let e = self.items.remove(0);
        proof {
            assert_seqs_equal!(self@ == old(self)@.skip(1));
        }
        Some(e)
    }
}

/// The simulated-latency source: each outbound message is delayed by a
/// uniform number of milliseconds between the two bounds.
pub struct DevilCat {
    pub min_delay: i32,
    pub max_delay: i32,
}

impl DevilCat {
    pub fn new(min_delay: i32, max_delay: i32) -> (r: Self)
        ensures
            r == (DevilCat { min_delay, max_delay }),
    {
        Self { min_delay, max_delay }
    }

    /// Relies on `rand::thread_rng` and `rand::Rng::gen_range`: a sample of
    /// the inclusive range `min_delay ..= max_delay` lies within it, and the
    /// call panics only on an empty range, which the precondition rules out.
    #[verifier::external_body]
    pub fn get_random_delay(&self) -> (r: u128)
        requires
            0 <= self.min_delay <= self.max_delay,
        ensures
            self.min_delay as int <= r as int <= self.max_delay as int,
    {
        let mut rng = rand::thread_rng();
        let delay = rng.gen_range(self.min_delay..=self.max_delay);
        delay as u128
    }
}

impl Default for DevilCat {
    fn default() -> (r: Self)
        ensures
            r == (DevilCat { min_delay: 0, max_delay: 0 }),
    {
        DevilCat { min_delay: 0, max_delay: 0 }
    }
}

/// The host-side record of one spawned instance: its id, the channel of
/// freshly sent events, and the deadline-ordered buffer the scheduler moves
/// them into. The guest handle itself lives with the embedder.
pub struct WasmInstance {
    pub id: i32,
    pub pending: Vec<Event>,
    pub buffer: EventBuffer,
}

/// The host's global state: one record per instance, the monotonic spawn
/// counter, and the delay source.
pub struct WasmHostState {
    pub instances: Vec<WasmInstance>,
    pub counter: u32,
    pub devil_cat: DevilCat,
}

impl Default for WasmHostState {
    fn default() -> (r: Self)
        ensures
            r.instances@.len() == 0,
            r.counter == 0,
            r.devil_cat == (DevilCat { min_delay: 10, max_delay: 5000 }),
    {
        WasmHostState { instances: Vec::new(), counter: 0, devil_cat: DevilCat::new(10, 5000) }
    }
}

/// The position of the first record with `id`.
pub open spec fn find_instance(s: Seq<WasmInstance>, id: i32) -> Option<int>
    decreases s.len(),
{
    if s.len() == 0 {
        None
    } else if s[0].id == id {
        Some(0)
    } else {
        match find_instance(s.skip(1), id) {
            Some(i) => Some(i + 1),
            None => None,
        }
    }
}

proof fn lemma_find_instance_none(s: Seq<WasmInstance>, id: i32)
    requires
        forall|j: int| 0 <= j < s.len() ==> (#[trigger] s[j].id) != id,
    ensures
        find_instance(s, id) is None,
    decreases s.len(),
{
    if s.len() > 0 {
        lemma_find_instance_none(s.skip(1), id);
    }
}

proof fn lemma_find_instance_at(s: Seq<WasmInstance>, id: i32, t: int)
    requires
        0 <= t < s.len(),
        s[t].id == id,
        forall|j: int| 0 <= j < t ==> (#[trigger] s[j].id) != id,
    ensures
        find_instance(s, id) == Some(t),
    decreases t,
{
    if t > 0 {
        lemma_find_instance_at(s.skip(1), id, t - 1);
    }
}

/// Register a fresh, empty mailbox under the next id and hand the id back.
/// The embedder instantiates the guest for it and calls its start export.
pub fn spawn_instance(state: &mut WasmHostState) -> (r: i32)
    requires
        old(state).counter < 0x7fff_ffff,
    ensures
        final(state).counter == old(state).counter + 1,
        r as int == old(state).counter + 1,
        final(state).devil_cat == old(state).devil_cat,
        final(state).instances@.len() == old(state).instances@.len() + 1,
        final(state).instances@.subrange(0, old(state).instances@.len() as int) == old(
            state,
        ).instances@,
        final(state).instances@.last().id == r,
        final(state).instances@.last().pending@.len() == 0,
        final(state).instances@.last().buffer@.len() == 0,
        final(state).instances@.last().buffer.wf(),
{
    state.counter = state.counter + 1;
    let id = state.counter as i32;
    state.instances.push(WasmInstance { id, pending: Vec::new(), buffer: EventBuffer::new() });
    proof {
        assert_seqs_equal!(final(state).instances@
            .subrange(0, old(state).instances@.len() as int) == old(state).instances@);
    }
    id
}

/// The host half of the `send_message` import once the caller's bytes are
/// read: resolve the target, consult the devil for a delay, stamp the event
/// with `now` plus that delay, and append it to the target's channel. An
/// unknown target drops the message. The stamped deadline never precedes
/// `now`.
#[verifier::loop_isolation(false)]
pub fn send_message(
    state: &mut WasmHostState,
    target_id: i32,
    sender_id: i32,
    message: Vec<u8>,
    now: u128,
)
    requires
        0 <= old(state).devil_cat.min_delay <= old(state).devil_cat.max_delay,
        now + old(state).devil_cat.max_delay as u128 <= u128::MAX,
    ensures
        final(state).counter == old(state).counter,
        final(state).devil_cat == old(state).devil_cat,
        match find_instance(old(state).instances@, target_id) {
            Some(t) => {
                &&& final(state).instances@.len() == old(state).instances@.len()
                &&& forall|k: int|
                    0 <= k < old(state).instances@.len() && k != t
                        ==> final(state).instances@[k] == old(state).instances@[k]
                &&& final(state).instances@[t].id == old(state).instances@[t].id
                &&& final(state).instances@[t].buffer == old(state).instances@[t].buffer
                &&& final(state).instances@[t].pending@.len() == old(
                    state,
                ).instances@[t].pending@.len() + 1
                &&& final(state).instances@[t].pending@.drop_last() == old(
                    state,
                ).instances@[t].pending@
                &&& ({
                    let ev = final(state).instances@[t].pending@.last();
                    &&& ev.sender_id == sender_id
                    &&& ev.data == (EventData::RawMessage { message })
                    &&& now + old(state).devil_cat.min_delay as u128 <= ev.fire_time <= now + old(
                        state,
                    ).devil_cat.max_delay as u128
                })
            },
            None => final(state).instances@ == old(state).instances@,
        },
{
    let delay = state.devil_cat.get_random_delay();
    let n = state.instances.len();
    let mut t: usize = 0;
    while t < n && state.instances[t].id != target_id
        invariant
            0 <= t <= n,
            forall|j: int| 0 <= j < t ==> (#[trigger] state.instances@[j].id) != target_id,
            state == old(state),
        decreases n - t,
    {
        t = t + 1;
    }
    if t == n {
        proof {
            lemma_find_instance_none(state.instances@, target_id);
        }
        return ;
    }
    proof {
        lemma_find_instance_at(state.instances@, target_id, t as int);
    }
    let mut inst = state.instances.remove(t);
    inst.pending.push(
        Event::new(now + delay, sender_id, EventData::RawMessage { message }),
    );
    state.instances.insert(t, inst);
    proof {
        assert_seqs_equal!(final(state).instances@
            == old(state).instances@.update(t as int, final(state).instances@[t as int]));
    }
}

/// One scheduler visit to one mailbox: first drain the channel into the
/// deadline buffer, then pop every event due at `now`. What comes out is
/// exactly what was waiting and is due, in deadline order: an event is
/// never handed out before one with an earlier deadline, and never before
/// its own deadline.
#[verifier::loop_isolation(false)]
pub fn sweep_instance(inst: &mut WasmInstance, now: u128) -> (due: Vec<Event>)
    requires
        old(inst).buffer.wf(),
    ensures
        final(inst).buffer.wf(),
        final(inst).id == old(inst).id,
        final(inst).pending@.len() == 0,
        due@.to_multiset().add(final(inst).buffer@.to_multiset()) == old(
            inst,
        ).buffer@.to_multiset().add(old(inst).pending@.to_multiset()),
        sorted_by_fire_time(due@),
        forall|k: int| 0 <= k < due@.len() ==> due@[k].fire_time <= now,
        forall|k: int|
            0 <= k < final(inst).buffer@.len() ==> final(inst).buffer@[k].fire_time > now,
{
    broadcast use vstd::seq_lib::group_to_multiset_ensures;
    broadcast use vstd::multiset::group_multiset_axioms;

    while inst.pending.len() > 0
        invariant
            inst.id == old(inst).id,
            inst.buffer.wf(),
            inst.buffer@.to_multiset().add(inst.pending@.to_multiset()) == old(
                inst,
            ).buffer@.to_multiset().add(old(inst).pending@.to_multiset()),
        decreases inst.pending@.len(),
    {
        let ghost pend_pre = inst.pending@;
        let ghost buf_pre = inst.buffer@;
        let e = match inst.pending.pop() {
            Some(e) => e,
            None => {
                proof {
                    assert(false);
                }
                return Vec::new();
            },
        };
        inst.buffer.push(e);
        proof {
            to_multiset_remove(pend_pre, pend_pre.len() - 1);
            assert(inst.pending@ =~= pend_pre.drop_last());
            assert(pend_pre.to_multiset().count(e) > 0);
            assert(inst.buffer@.to_multiset().add(inst.pending@.to_multiset()) =~= buf_pre.to_multiset().add(
                pend_pre.to_multiset(),
            ));
        }
    }
    let mut due: Vec<Event> = Vec::new();
    let mut go = true;
    while go
        invariant
            inst.id == old(inst).id,
            inst.pending@.len() == 0,
            inst.buffer.wf(),
            due@.to_multiset().add(inst.buffer@.to_multiset()) == old(
                inst,
            ).buffer@.to_multiset().add(old(inst).pending@.to_multiset()),
            sorted_by_fire_time(due@),
            forall|k: int| 0 <= k < due@.len() ==> due@[k].fire_time <= now,
            forall|k: int, m: int|
                0 <= k < due@.len() && 0 <= m < inst.buffer@.len() ==> due@[k].fire_time
                    <= inst.buffer@[m].fire_time,
            !go ==> forall|k: int| 0 <= k < inst.buffer@.len() ==> inst.buffer@[k].fire_time > now,
        decreases inst.buffer@.len() + (if go { 1int } else { 0int }),
    {
        let ghost buf_pre = inst.buffer@;
        let ghost due_pre = due@;
        match inst.buffer.pop_due(now) {
            Some(e) => {
                due.push(e);
                proof {
                    to_multiset_remove(buf_pre, 0);
                    assert(inst.buffer@ =~= buf_pre.skip(1));
                    assert(due@ =~= due_pre.push(e));
                    assert(due@.to_multiset().add(inst.buffer@.to_multiset()) =~= due_pre.to_multiset().add(
                        buf_pre.to_multiset(),
                    ));
                }
            },
            None => {
                go = false;
            },
        }
    }
    due
}

} // verus!
