//! A 5v5 matchmaking engine.
//!
//! The engine keeps waiting players in an in-memory, skill-sharded pool, forms balanced
//! 10-player matches (two teams of five) out of waiters of similar skill, and evicts the
//! matched players. This crate holds the decisions: how the skill axis is cut into shards,
//! which waiters a match takes, when a group is accepted, how it is split into teams, what is
//! counted, and how workers and the load generator pace themselves. Threads, locks and printing
//! are left to the program around it.
pub mod acceptance;
pub mod arrivals;
pub mod axis;
pub mod balance;
pub mod clock;
pub mod compatible;
pub mod effects;
pub mod engine;
pub mod history;
pub mod lobby;
pub mod locking;
pub mod metrics;
pub mod nearest;
pub mod pacing;
pub mod player;
pub mod pool;
pub mod recent;
pub mod record;
pub mod relaxation;
pub mod rng;
pub mod shard;
pub mod sim;
pub mod turns;

pub use engine::{Config, Engine};
pub use metrics::{Metrics, MetricsSnapshot};
pub use player::{Match, Player};
