//! Relaxed FIFO queues and the measurement of their ordering error.
//!
//! A relaxed queue shards one logical FIFO into several sub-queues; each
//! operation samples `d` of them ("power-of-d-choices") and picks one by a
//! heuristic, trading strict order for scalability. The crate holds two
//! such queues ([`DChoiceQueue`] and [`DRa`]), a tombstoned reference
//! tracker ([`StrictQueue`]) that reproduces strict enqueue order, and
//! analysis drivers ([`analyze_simple`], [`analyze_extra`]) that replay an
//! operation script against both and score every dequeue with its rank
//! error: how many older items were still outstanding when it left.
//!
//! The contracts pin the behaviour down to the random draws: every enqueue
//! appends to the shard the heuristic picks from the sample, every dequeue
//! pops the front of the chosen shard or of the fallback scan's find, the
//! tracker's rank errors count exactly the older outstanding items, and
//! the drivers conserve items and score empty answers with the live count.

mod aggregate;
mod config;
mod d_choice_queue;
mod d_ra;
mod relaxation_simulation;
mod relaxed_fifo;
mod rng;
mod sampling;
mod select;
mod strict_queue;
mod sub_queue;

pub use aggregate::{sort_i64s, sort_usizes, sorted_enq_deq_diffs, sorted_rank_errors};
pub use config::{Heuristic, QueueArg, QueueConfig, Sampling};
pub use d_choice_queue::{ConfigError, DChoiceQueue};
pub use d_ra::{DRa, Partial};
pub use relaxation_simulation::{analyze_extra, analyze_simple, ErrorTag};
pub use relaxed_fifo::RelaxedFifo;
pub use sampling::sample;
pub use strict_queue::StrictQueue;
pub use sub_queue::{lemma_shard_accounting, SubQueue};
