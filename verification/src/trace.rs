use crate::journal::Journal;
use crate::model::keyed;
use crate::model::Searchable;
use crate::model::State;
use vstd::prelude::*;

verus! {

/// Whether the problem, in some condition of it, may answer `score`
/// when asked for the fitness of `state`.
pub open spec fn gave_score<M: Searchable>(state: M::Solution, score: Option<i64>) -> bool {
    exists|model: &mut M| call_ensures(M::fitness_estimate, (model, &state), score)
}

/// Whether the problem may start from a state with the given key.
pub open spec fn started_by<M: Searchable>(key: u64) -> bool {
    exists|model: M, state: M::Solution| #[trigger]
        call_ensures(M::start, (&model,), state) && keyed(state, key)
}

/// Whether the problem may answer `score` for a state with the given
/// key.
pub open spec fn scored_by<M: Searchable>(key: u64, score: Option<i64>) -> bool {
    exists|state: M::Solution| #[trigger] gave_score::<M>(state, score) && keyed(state, key)
}

/// Whether the goal test may answer `goal` for a state with the given
/// key and fitness.
pub open spec fn tested_by<M: Searchable>(key: u64, fitness: i64, goal: bool) -> bool {
    exists|model: M, state: M::Solution| #[trigger]
        call_ensures(M::is_goal, (&model, &state, fitness), goal) && keyed(state, key)
}

/// Whether the problem, in some condition of it, may be told of
/// `state` with `fitness`.
pub open spec fn took_report<M: Searchable>(state: M::Solution, fitness: i64) -> bool {
    exists|model: &mut M| call_ensures(M::output, (model, &state, fitness), ())
}

/// Whether the problem may be told of a state with the given key and
/// fitness.
pub open spec fn reported_by<M: Searchable>(key: u64, fitness: i64) -> bool {
    exists|state: M::Solution| #[trigger] took_report::<M>(state, fitness) && keyed(state, key)
}

/// Whether `keys` are the keys answered by the first states of `list`,
/// one by one.
pub open spec fn keys_of<S: State>(list: Seq<S>, keys: Seq<u64>) -> bool {
    &&& keys.len() <= list.len()
    &&& forall|a: int| 0 <= a < keys.len() ==> keyed(list[a], #[trigger] keys[a])
}

/// Whether the problem may give, for a state with the given key, a
/// list of neighbours that starts with states of the keys `arcs`, and
/// that holds no more if `full`.
pub open spec fn generated_by<M: Searchable>(key: u64, arcs: Seq<u64>, full: bool) -> bool {
    exists|model: M, state: M::Solution, list: Vec<M::Solution>| #[trigger]
        call_ensures(M::neighbors, (&model, &state), list) && keyed(state, key) && keys_of(
            list@,
            arcs,
        ) && (full ==> arcs.len() == list@.len())
}

/// Whether the neighbours of the `i`-th visit are what the problem
/// gave: all of them, unless the search broke off during that visit.
pub open spec fn generated<M: Searchable>(j: Journal, i: int) -> bool {
    !j.visits[i].goal ==> generated_by::<M>(
        j.visits[i].key,
        j.visits[i].arcs,
        i < j.visits.len() - 1 || j.refused is None,
    )
}

/// Whether the start, the scores, the reports and the answers of the
/// goal test in the journal are what the problem gave and took: the
/// first state enqueued is one it starts from, and so is a state
/// refused when nothing was enqueued; each fitness is one it gave for
/// that state; and each state visited is one it was told of, with that
/// fitness, and for which it gave that answer of the goal test.
pub open spec fn answered<M: Searchable>(j: Journal) -> bool {
    &&& j.enqueued.len() >= 1 ==> started_by::<M>(j.enqueued[0].0)
    &&& forall|x: int|
        0 <= x < j.enqueued.len() ==> scored_by::<M>(
            (#[trigger] j.enqueued[x]).0,
            Some(j.enqueued[x].1),
        )
    &&& j.refused matches Some(key) ==> scored_by::<M>(key, None) && (j.enqueued.len() == 0
        ==> started_by::<M>(key))
    &&& forall|i: int|
        0 <= i < j.visits.len() ==> reported_by::<M>(
            (#[trigger] j.visits[i]).key,
            j.visits[i].fitness,
        )
    &&& forall|i: int|
        0 <= i < j.visits.len() ==> tested_by::<M>(
            (#[trigger] j.visits[i]).key,
            j.visits[i].fitness,
            j.visits[i].goal,
        )
}

/// Whether everything in the journal came from the problem `M`: the
/// first state enqueued is one it starts from, each fitness is one it
/// gave for that state, each state visited is one it was told of, each
/// answer of the goal test is one it gave for the state visited, and
/// the neighbours of each visit are those it gave for the state
/// visited.
pub open spec fn traced<M: Searchable>(j: Journal) -> bool {
    &&& answered::<M>(j)
    &&& forall|i: int| 0 <= i < j.visits.len() ==> #[trigger] generated::<M>(j, i)
}

} // verus!
