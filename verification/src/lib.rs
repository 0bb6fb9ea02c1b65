//! Routing and shared-state core of a peer-to-peer encrypted overlay network.
//!
//! Peers claim ranges of virtual addresses; the claim table resolves every
//! destination address to the peer that currently owns it, falling back to a
//! learned-address cache. A per-peer crypto map guards outgoing buffers and a
//! set of traffic counters records byte volumes. Each of the three domains is
//! exposed to concurrent workers through a shared facade: cloned handles over
//! one lock-guarded state.

pub mod crypto;
pub mod error;
pub mod seqx;
pub mod shared;
pub mod sharing;
pub mod table;
pub mod time;
pub mod traffic;
pub mod types;
