//! The search spread over worker threads.
use super::search::{search_outcome, search_worker, SearchTask};
use super::signal::StopSignal;
use crate::circuit::circuit::Gate;
use crate::random::RandomSource;
use rayon::iter::{ParallelBridge, ParallelIterator};
use vstd::prelude::*;

verus! {

/// `rayon::current_num_threads`: the number of threads of the pool on which
/// the work will run.  Nothing is claimed of it.
#[verifier::external_body]
pub(crate) fn worker_count() -> (threads: usize) {
    rayon::current_num_threads()
}

/// `ParallelIterator::find_map_any` over the sources, bridged from a
/// sequential iterator: each source is handed to one call of
/// `search_worker`, and the result is that of some call that found a block,
/// or nothing if none did.  The contract is the one that `search_worker` is
/// proved to meet.
#[verifier::external_body]
fn run_workers<R: RandomSource + Send>(
    task: &SearchTask,
    max_iterations: usize,
    stop: &StopSignal,
    sources: Vec<R>,
) -> (res: Option<(Vec<Gate>, usize)>)
    requires
        task.wf(),
    ensures
        search_outcome(task, max_iterations, res),
{
    sources.into_iter().par_bridge().find_map_any(
        |mut rng| search_worker(task, max_iterations, stop, &mut rng),
    )
}

/// Searches for `task` on all threads of the pool.  The `num_attempts`
/// samples are shared out evenly; each worker draws from a source of its
/// own, forked from `rng`.  The result of the first worker that finds a
/// block is returned, the others stop soon after.
pub fn parallel_search<R: RandomSource + Send>(
    task: &SearchTask,
    num_attempts: usize,
    rng: &mut R,
) -> (res: Option<(Vec<Gate>, usize)>)
    requires
        task.wf(),
    ensures
        search_outcome(task, num_attempts, res),
{
    let threads = worker_count();
    if threads == 0 {
        return None;
    }
    let max_iterations = num_attempts / threads;
    let mut sources: Vec<R> = Vec::new();
    let mut k: usize = 0;
    while k < threads
        invariant
            k <= threads,
        decreases threads - k,
    {
        sources.push(rng.fork());
        k += 1;
    }
    let stop = StopSignal::new();
    run_workers(task, max_iterations, &stop, sources)
}

} // verus!
