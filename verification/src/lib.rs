//! A sandboxed multi-actor runtime core: a leader-based log-replication
//! protocol maintaining a replicated FIFO integer queue, together with the
//! host-side machinery that carries its messages — a deadline-ordered event
//! buffer, a simulated-latency delay source, a guest linear-memory model,
//! and a round-trippable text codec for the protocol's events.
//!
//! `instance` holds the guest role machine, whose every handler is proved
//! equal to the spec transition `step`; `laws` states and proves what holds
//! of those transitions; `host` carries events between instances; `codec`
//! turns events into bytes and back; `memory` models the guest's linear
//! memory and its bump allocator.

pub mod codec;
pub mod host;
pub mod instance;
pub mod laws;
pub mod memory;
pub mod messages;
