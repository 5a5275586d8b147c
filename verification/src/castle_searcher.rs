use crate::castle::valid_cuts;
use crate::castle::wins;
use crate::castle::Castle;
use crate::castle::TROOPS;
use crate::model::SearchError;
use crate::model::Searchable;
use crate::search::records_kept;
use crate::search::Engine;
use crate::trace::traced;
use crate::tracker::best_value;
use crate::tracker::climbed;
use crate::tracker::not_worse;
use crate::tracker::values_of;
use vstd::prelude::*;

verus! {

/// How many allocations `CastleSearcher::new` draws to score against.
pub const N_TRAINING_SAMPLES: usize = 100_000;

/// How many of the first `n` samples the allocation with cuts
/// `solution` wins against.
pub open spec fn wins_among(solution: Seq<u8>, samples: Seq<Castle>, n: nat) -> nat
    decreases n,
{
    if n == 0 {
        0
    } else {
        wins_among(solution, samples, (n - 1) as nat) + if wins(solution, samples[n - 1]@) {
            1nat
        } else {
            0nat
        }
    }
}

/// The fitness of an allocation that wins against `count` samples: the
/// count itself, or the greatest fitness there is if the count is
/// beyond it.
pub open spec fn fitness_of(count: nat) -> i64 {
    if count > i64::MAX {
        i64::MAX
    } else {
        count as i64
    }
}

/// The castle puzzle as a search problem: an allocation is the better
/// the more of a fixed set of sample allocations it wins against, its
/// neighbours are the allocations one move away, and no allocation ends
/// the search.
pub struct CastleSearcher {
    training_data: Vec<Castle>,
    latest: Option<(Castle, i64)>,
}

impl CastleSearcher {
    /// The samples that allocations are scored against.
    pub closed spec fn samples(&self) -> Seq<Castle> {
        self.training_data@
    }

    /// The state and fitness most recently reported by a search.
    pub closed spec fn reported(&self) -> Option<(Castle, i64)> {
        self.latest
    }

    /// A searcher that scores against `N_TRAINING_SAMPLES` allocations
    /// drawn at random, each as `Castle::from_random` gives: nine cuts
    /// in rising order, every one below `TROOPS`. Nothing has been
    /// reported to it yet.
    pub fn new() -> (searcher: CastleSearcher)
        ensures
            searcher.samples().len() == N_TRAINING_SAMPLES,
            forall|i: int|
                0 <= i < searcher.samples().len() ==> valid_cuts(#[trigger] searcher.samples()[i]@)
                    && forall|k: int| 0 <= k < 9 ==> searcher.samples()[i]@[k] < TROOPS,
            searcher.reported() is None,
    {
        let mut training_data: Vec<Castle> = Vec::new();
        let mut n: usize = 0;
        while n < N_TRAINING_SAMPLES
            invariant
                n <= N_TRAINING_SAMPLES,
                training_data@.len() == n,
                forall|i: int|
                    0 <= i < training_data@.len() ==> valid_cuts(#[trigger] training_data@[i]@)
                        && forall|k: int| 0 <= k < 9 ==> training_data@[i]@[k] < TROOPS,
            decreases N_TRAINING_SAMPLES - n,
        {
            training_data.push(Castle::from_random());
            n = n + 1;
        }
        CastleSearcher { training_data, latest: None }
    }

    /// A searcher that scores against the given allocations.
    pub fn from_samples(samples: Vec<Castle>) -> (searcher: CastleSearcher)
        ensures
            searcher.samples() == samples@,
            searcher.reported() is None,
    {
        CastleSearcher { training_data: samples, latest: None }
    }

    /// How many samples allocations are scored against.
    pub fn sample_count(&self) -> (count: usize)
        ensures
            count == self.samples().len(),
    {
        self.training_data.len()
    }

    /// How many of the samples `solution` wins against.
    pub fn test_on_data(&self, solution: &Castle) -> (count: usize)
        ensures
            count == wins_among(solution@, self.samples(), self.samples().len()),
    {
        let mut count: usize = 0;
        let mut n: usize = 0;
        while n < self.training_data.len()
            invariant
                n <= self.training_data@.len(),
                count == wins_among(solution@, self.training_data@, n as nat),
                count <= n,
            decreases self.training_data@.len() - n,
        {
            if solution.does_win(&self.training_data[n]) {
                count = count + 1;
            }
            n = n + 1;
        }
        count
    }

    /// Searches best-first for an allocation that wins against many
    /// samples, with `engine` keeping the best one scored. No allocation
    /// is a goal and every allocation has a score, so the search can end
    /// in one way only: when every allocation that the moves lead to
    /// from the start has been visited.
    pub fn pathfind(&mut self, engine: &mut Engine<Castle>) -> (result: Result<Castle, SearchError>)
        ensures
            result == Err::<Castle, SearchError>(SearchError::Exhausted),
            final(engine).journal().coherent(),
            final(engine).journal().exhausted(),
            traced::<CastleSearcher>(final(engine).journal()),
            old(engine).records().is_prefix_of(final(engine).records()),
            values_of(final(engine).records()) == climbed(
                values_of(old(engine).records()),
                final(engine).journal().fitnesses(),
            ),
            records_kept(final(engine).journal(), old(engine).records(), final(engine).records()),
            not_worse(best_value(old(engine).records()), best_value(final(engine).records())),
            forall|x: int|
                0 <= x < final(engine).journal().enqueued.len() ==> not_worse(
                    Some((#[trigger] final(engine).journal().enqueued[x]).1),
                    best_value(final(engine).records()),
                ),
    {
        engine.pathfind(self)
    }

    /// The state and fitness most recently reported by a search, if any
    /// was.
    pub fn latest_report(&self) -> (latest: Option<(Castle, i64)>)
        ensures
            latest == self.reported(),
    {
        self.latest
    }
}

impl Searchable for CastleSearcher {
    type Solution = Castle;

    /// The allocations one move away from `solution`.
    fn neighbors(&self, solution: &Castle) -> (around: Vec<Castle>)
        ensures
            around@.len() == crate::castle::nudges(solution@, 18).len(),
            forall|k: int|
                0 <= k < around@.len() ==> crate::castle::is_sorting_of(
                    #[trigger] around@[k]@,
                    crate::castle::nudges(solution@, 18)[k],
                ),
    {
        solution.neighbors()
    }

    /// The number of samples that `solution` wins against.
    fn fitness_estimate(&mut self, solution: &Castle) -> (fitness: Option<i64>)
        ensures
            fitness == Some(
                fitness_of(wins_among(solution@, old(self).samples(), old(self).samples().len())),
            ),
            final(self).samples() == old(self).samples(),
            final(self).reported() == old(self).reported(),
    {
        let count: u64 = self.test_on_data(solution) as u64;
        if count > i64::MAX as u64 {
            Some(i64::MAX)
        } else {
            Some(count as i64)
        }
    }

    /// No allocation ends the search.
    fn is_goal(&self, solution: &Castle, fitness: i64) -> (goal: bool)
        ensures
            !goal,
    {
        false
    }

    /// An allocation drawn at random, as `Castle::from_random` gives.
    fn start(&self) -> (castle: Castle)
        ensures
            crate::castle::valid_cuts(castle@),
            forall|i: int| 0 <= i < 9 ==> castle@[i] < crate::castle::TROOPS,
    {
        Castle::from_random()
    }

    /// Remembers the state reported, in place of the one before.
    fn output(&mut self, solution: &Castle, fitness: i64)
        ensures
            final(self).reported() == Some((*solution, fitness)),
            final(self).samples() == old(self).samples(),
    {
        self.latest = Some((*solution, fitness));
    }
}

} // verus!
