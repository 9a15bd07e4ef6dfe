use vstd::prelude::*;

use crate::d_choice_queue::ConfigError;
use crate::d_ra::DRa;

verus! {

/// Heuristic used to pick among sampled partial queues.
#[derive(Clone, Copy, Debug, PartialEq, Eq, Structural)]
pub enum Heuristic {
    /// Length-based heuristic, as in the original d-RA load balancer.
    Length,
    /// Operation-based heuristic.
    Operation,
}

/// How shard indices are sampled for one operation.
#[derive(Clone, Copy, Debug, PartialEq, Eq, Structural)]
pub enum Sampling {
    /// Just samples d values at random.
    Naive,
    /// Does not sample the same index twice.
    Uniques,
}

/// Configuration of how a queue works, apart from its number of partials.
#[derive(Clone, Copy, Debug, PartialEq, Eq, Structural)]
pub struct QueueConfig {
    /// The number of partials to sample for each operation (d).
    pub sample_nbr: usize,
    /// What sampling heuristic to use.
    pub heuristic: Heuristic,
    /// What index sampling method to use.
    pub sampling: Sampling,
}

/// A queue configuration together with its number of partial queues.
#[derive(Clone, Copy, Debug, PartialEq, Eq, Structural)]
pub struct QueueArg {
    /// The number of partial queues to use.
    pub partials: usize,
    /// Further config about how the queue works.
    pub config: QueueConfig,
}

impl QueueConfig {
    /// Builds a d-Ra with this configuration over `partials` partial
    /// queues, with the empty-fallback scan on.
    pub fn init(&self, partials: usize, seed: u64) -> (r: Result<DRa<usize>, ConfigError>)
        ensures
            r is Ok <==> (partials >= 1 && 1 <= self.sample_nbr <= partials),
            r is Ok ==> {
                let q = r->Ok_0;
                &&& q.wf()
                &&& q.partials@.len() == partials
                &&& q.d == self.sample_nbr
                &&& q.uniques == (self.sampling == Sampling::Uniques)
                &&& q.progress_heuristic == (self.heuristic == Heuristic::Operation)
                &&& q.empty_lin
                &&& forall|i: int|
                    0 <= i < partials ==> (#[trigger] q.partials@[i]).head == 0
                        && q.partials@[i].tail == 0 && q.partials@[i]@.len() == 0
            },
    {
        DRa::new(
            partials,
            self.sample_nbr,
            self.sampling == Sampling::Uniques,
            self.heuristic == Heuristic::Operation,
            true,
            seed,
        )
    }
}

impl QueueArg {
    /// Builds the d-Ra this argument describes.
    pub fn init(&self, seed: u64) -> (r: Result<DRa<usize>, ConfigError>)
        ensures
            r is Ok <==> (self.partials >= 1 && 1 <= self.config.sample_nbr <= self.partials),
            r is Ok ==> {
                let q = r->Ok_0;
                &&& q.wf()
                &&& q.partials@.len() == self.partials
                &&& q.d == self.config.sample_nbr
                &&& q.uniques == (self.config.sampling == Sampling::Uniques)
                &&& q.progress_heuristic == (self.config.heuristic == Heuristic::Operation)
                &&& q.empty_lin
                &&& forall|i: int|
                    0 <= i < self.partials ==> (#[trigger] q.partials@[i]).head == 0
                        && q.partials@[i].tail == 0 && q.partials@[i]@.len() == 0
            },
    {
        self.config.init(self.partials, seed)
    }
}

} // verus!
