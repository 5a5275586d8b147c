use vstd::prelude::*;

verus! {

/// A candidate that a search can tell apart from every other by an
/// integer key. Two states with the same key are the same state to the
/// search: it enqueues only the first it meets. The search asks each
/// state it meets for its key once, and copies a state when it sets a
/// new record.
pub trait State: Clone {
    /// The identity of the state.
    fn key(&self) -> u64;
}

/// Whether `key` is what `state` may answer when asked for its key.
pub open spec fn keyed<S: State>(state: S, key: u64) -> bool {
    call_ensures(S::key, (&state,), key)
}

/// The problem that a search explores. The search asks it for a state to
/// start from, for the neighbours of a state, for the fitness of a state
/// and whether a state ends the search, and tells it of every state it
/// takes from the frontier. Nothing is assumed of the answers.
pub trait Searchable {
    /// The states of the problem.
    type Solution: State;

    /// The neighbours of `solution`, in the order they are to be scored.
    fn neighbors(&self, solution: &Self::Solution) -> Vec<Self::Solution>;

    /// The fitness of `solution`, higher being better, or `None` when
    /// the problem has no finite score for it.
    fn fitness_estimate(&mut self, solution: &Self::Solution) -> Option<i64>;

    /// Whether the search may stop at `solution`.
    fn is_goal(&self, solution: &Self::Solution, fitness: i64) -> bool;

    /// The state to start from.
    fn start(&self) -> Self::Solution;

    /// Told of each state as it is taken from the frontier.
    fn output(&mut self, solution: &Self::Solution, fitness: i64);
}

/// Why a search ended without meeting its goal.
#[derive(Debug, Clone, Copy, PartialEq, Eq, Structural)]
pub enum SearchError {
    /// Every state that could be reached was visited and none was a goal.
    Exhausted,
    /// The problem had no finite score for a state.
    ScoreNotFinite,
}

} // verus!
