//! A verified best-of-market order-book aggregator.
//!
//! Independent exchange feeds each deliver depth-limited snapshots
//! ([`book::Tick`]); the merge engine ([`merge::MergeState`]) folds the
//! latest snapshot per exchange into a single depth-limited bid/ask
//! ladder with an explicit tie-break policy, the distributor
//! ([`distributor::Distributor`]) fans each aggregate out to bounded
//! drop-oldest subscriber queues, and the supervisor
//! ([`supervisor::Supervisor`]) decides reconnect policy for each feed.
//!
//! Prices and amounts are exact fixed-point integers: callers pick one
//! scale (for example 1e-8 units) and use it consistently; the library
//! never divides or rounds, so no precision is lost anywhere inside it.

pub mod book;
pub mod distributor;
pub mod merge;
pub mod supervisor;
