//! Bounded counters for distributed capacity quotas.
//!
//! The problem: enforce "no more than `limit` in total" -- bytes stored, objects held,
//! connections open -- across a cluster where every node accepts writes, without a round trip on
//! the write path. Something has to give, and there are two ways to choose.
//!
//! [`BCounter`] is **optimistic**. Each node owns one slot of two grow-only totals, `consumed` and
//! `freed`, writes only that slot, and merges what it hears of others by taking the larger of
//! each. It admits a write while its own view leaves room. That view lags, so the true total can
//! exceed the limit -- by at most what other nodes have written and this one has not heard of,
//! never unboundedly. [`BCounterMap`] holds one counter per scope and charges a path of scopes
//! all-or-none.
//!
//! [`Escrow`] is **strict**. A [`Quota`] (or a [`Pool`], the same contract under the escrow's
//! name for it) lends each node a slice of the budget, and a node spends only what it was lent.
//! The limit is never exceeded; the price is the false denial, a refusal while unused rights sit
//! on another node. [`EscrowMap`] is its map of scopes.
//!
//! Nothing here reads a clock or a socket. Every operation is a state transition that the caller
//! drives; gossip, persistence and the lender belong to the server.
//!
//! ```
//! use bcounter::{BCounter, Denied};
//!
//! let mut a: BCounter = BCounter::new(1, 100); // node 1
//! let mut b: BCounter = BCounter::new(2, 100); // node 2
//!
//! assert_eq!(a.inc(60), Ok(())); // node 1 spends 60 of the budget
//! assert_eq!(b.inc(60), Ok(())); // node 2, unaware, spends 60 too
//!
//! a.merge(&b); // node 1 learns of node 2's usage
//! assert_eq!(a.read(), 120); // a bounded overshoot, now visible
//! assert_eq!(a.inc(1), Err(Denied { available: 0 }));
//! ```
//!
//! # What is proved, and where
//!
//! Contracts speak of views: a counter is a node, a limit and a map of slots. What holds across
//! calls stands in the proof functions named `law_..`:
//!
//! - [`slots`]: merging is idempotent, commutative and associative, loses nothing, and converges
//!   in any order; complete reports add up exactly.
//! - [`counter`]: the overshoot is bounded by what was not yet heard of; a free undoes a write; the
//!   room and the usage make up the limit.
//! - [`replicas`]: counters that write and merge one another in any order lose nothing and count
//!   nothing twice.
//! - [`map`] and [`escrow_map`]: an admitted charge lands on every level of the path, once, and so
//!   does a free; room is what the limit given leaves.
//! - [`ledger`], [`quota`], [`pool`]: what is lent stays within the ceiling.
//! - [`escrow`]: what all nodes use together stays within the ceiling; a report carries a merge.
//! - [`fleet`]: no order of grants, draws, acquisitions, releases, returns and reports exceeds the
//!   ceiling.
//! - [`wire`]: decoding undoes encoding, and the bytes spell the lines.
//!
//! Three simulators drive these structures the way a server would. Their state machines are here
//! too: [`overshoot`] (a cluster of optimistic counters), [`gossip`] (escrow counters whose
//! reports travel over a broadcast tree), and [`lease`] (a rate limit leased down a tree). Each
//! says what is to be done next, and whoever drives it does so.
//! What each of their steps does, figure by figure, stands in [`gossip_effects`] and
//! [`lease::effects`]; what a whole run keeps, in [`gossip_runs`] and [`lease::laws`].

pub mod counter;
pub mod escrow;
pub mod escrow_map;
pub mod fleet;
pub mod gossip;
pub mod gossip_effects;
pub mod gossip_laws;
pub mod gossip_runs;
pub mod keys;
pub mod lease;
pub mod ledger;
pub mod map;
pub mod overshoot;
pub mod pool;
pub mod queue;
pub mod quota;
pub mod replicas;
pub mod rng;
pub mod slots;
pub mod sums;
pub mod wire;

pub use counter::{BCounter, CounterView, Denied};
pub use escrow::{Escrow, EscrowView};
pub use escrow_map::{EscrowMap, EscrowMapView};
pub use map::{BCounterMap, CounterMapView};
pub use pool::{LocalPool, Pool};
pub use quota::{LocalQuota, Quota};
pub use slots::SlotState;
