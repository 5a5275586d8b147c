use crate::journal::closed_by;
use crate::journal::Journal;
use crate::model::keyed;
use crate::model::SearchError;
use crate::model::Searchable;
use crate::model::State;
use crate::trace::generated;
use crate::trace::generated_by;
use crate::trace::scored_by;
use crate::trace::started_by;
use crate::trace::tested_by;
use crate::trace::traced;
use vstd::prelude::*;

verus! {

/// The identities of the states that entered the frontier, in order.
pub open spec fn enqueued_keys(j: Journal) -> Seq<u64> {
    Seq::new(j.enqueued.len(), |x: int| j.enqueued[x].0)
}

/// No state enters the frontier more than once: the states enqueued are
/// as many as the distinct identities among them, which is the size of
/// the visited set.
pub proof fn lemma_enqueued_once(j: Journal)
    requires
        j.coherent(),
    ensures
        enqueued_keys(j).no_duplicates(),
        enqueued_keys(j).to_set().finite(),
        enqueued_keys(j).to_set().len() == j.enqueued.len(),
        forall|k: u64| enqueued_keys(j).to_set().contains(k) <==> j.holds(k),
{
    let keys = enqueued_keys(j);
    assert forall|a: int, b: int| 0 <= a < keys.len() && 0 <= b < keys.len() && a != b implies keys[a]
        != keys[b] by {
        if a < b {
            assert(j.enqueued[a].0 != j.enqueued[b].0);
        } else {
            assert(j.enqueued[b].0 != j.enqueued[a].0);
        }
    }
    keys.unique_seq_to_set();
    assert forall|k: u64| keys.to_set().contains(k) <==> j.holds(k) by {
        if keys.to_set().contains(k) {
            let x = choose|x: int| 0 <= x < keys.len() && keys[x] == k;
            assert(j.enqueued[x].0 == k);
        }
        if j.holds(k) {
            let x = choose|x: int| 0 <= x < j.enqueued.len() && (#[trigger] j.enqueued[x]).0 == k;
            assert(keys[x] == k);
        }
    }
}

/// A later report has no greater fitness than an earlier one when no
/// state of greater fitness than the earlier one entered the frontier
/// between the two: of visits `i < k`, the later has a fitness no
/// greater than the earlier when every state enqueued after the earlier
/// visit and before the later has a fitness no greater either.
pub proof fn lemma_reports_do_not_rise(j: Journal, i: int, k: int)
    requires
        j.coherent(),
        0 <= i < k < j.visits.len(),
        forall|x: int|
            j.visits[i].known <= x < j.visits[k].known ==> (#[trigger] j.enqueued[x]).1
                <= j.visits[i].fitness,
    ensures
        j.visits[k].fitness <= j.visits[i].fitness,
{
    assert(j.visit_in_turn(k));
    let later = j.visits[k];
    let x = choose|x: int|
        0 <= x < later.known && #[trigger] j.enqueued[x] == (later.key, later.fitness);
    if x < j.visits[i].known && later.fitness > j.visits[i].fitness {
        assert(j.greedy_at(i, x));
        let w = choose|w: int| 0 <= w < i && w < j.visits.len() && (#[trigger] j.visits[w]).key
            == later.key;
        assert(j.visits[w].key != j.visits[k].key);
    }
}

/// Of two reports in a row, the later has a fitness no greater than the
/// earlier exactly when no state of greater fitness than the earlier
/// entered the frontier between the two.
pub proof fn lemma_next_report_falls_or_was_outbid(j: Journal, i: int)
    requires
        j.coherent(),
        0 <= i,
        i + 1 < j.visits.len(),
    ensures
        j.visits[i + 1].fitness <= j.visits[i].fitness <==> forall|x: int|
            j.visits[i].known <= x < j.visits[i + 1].known ==> (#[trigger] j.enqueued[x]).1
                <= j.visits[i].fitness,
{
    let first = j.visits[i];
    let next = j.visits[i + 1];
    if forall|x: int| first.known <= x < next.known ==> (#[trigger] j.enqueued[x]).1 <= first.fitness {
        lemma_reports_do_not_rise(j, i, i + 1);
    } else {
        let x = choose|x: int|
            first.known <= x < next.known && (#[trigger] j.enqueued[x]).1 > first.fitness;
        assert(j.visit_in_turn(i + 1));
        assert(j.visit_in_turn(i));
        assert(j.greedy_at(i + 1, x));
        if j.enqueued[x].1 > next.fitness {
            let w = choose|w: int|
                0 <= w < i + 1 && w < j.visits.len() && (#[trigger] j.visits[w]).key
                    == j.enqueued[x].0;
            lemma_known_rises(j, w, i);
            assert(j.visit_in_turn(w));
            let earlier = j.visits[w];
            let y = choose|y: int|
                0 <= y < earlier.known && #[trigger] j.enqueued[y] == (earlier.key, earlier.fitness);
            assert(j.enqueued[y].0 != j.enqueued[x].0);
        }
    }
}

/// A later visit knows at least the states that an earlier one knew.
proof fn lemma_known_rises(j: Journal, a: int, b: int)
    requires
        j.coherent(),
        0 <= a <= b < j.visits.len(),
    ensures
        j.visits[a].known <= j.visits[b].known,
    decreases b - a,
{
    if a < b {
        lemma_known_rises(j, a, b - 1);
        assert(j.visit_in_turn(b));
    }
}

/// Each state is taken while it has the greatest fitness of all that
/// wait: whatever was enqueued before visit `i` and has a greater
/// fitness than the state visited was itself visited before.
pub proof fn lemma_visit_takes_greatest(j: Journal, i: int, x: int)
    requires
        j.coherent(),
        0 <= i < j.visits.len(),
        0 <= x < j.visits[i].known,
        j.enqueued[x].1 > j.visits[i].fitness,
    ensures
        j.visited_within(j.enqueued[x].0, i),
{
    assert(j.visit_in_turn(i));
    assert(j.greedy_at(i, x));
}

/// A walk along the arcs of a graph: each state but the first is among
/// the neighbours of the one before it.
pub open spec fn is_path(arcs: spec_fn(u64) -> Seq<u64>, path: Seq<u64>) -> bool {
    &&& path.len() >= 1
    &&& forall|i: int|
        0 <= i < path.len() - 1 ==> arcs(#[trigger] path[i]).contains(path[i + 1])
}

/// Whether a walk along the arcs leads from `from` to `to`.
pub open spec fn reachable(arcs: spec_fn(u64) -> Seq<u64>, from: u64, to: u64) -> bool {
    exists|path: Seq<u64>| #[trigger] is_path(arcs, path) && path.first() == from && path.last() == to
}

/// Whether the neighbours generated on each visit were those that the
/// graph gives for the state visited.
pub open spec fn follows(j: Journal, arcs: spec_fn(u64) -> Seq<u64>) -> bool {
    forall|i: int| 0 <= i < j.visits.len() ==> (#[trigger] j.visits[i]).arcs == arcs(j.visits[i].key)
}

proof fn lemma_enqueued_is_reachable(j: Journal, arcs: spec_fn(u64) -> Seq<u64>, x: int)
    requires
        j.coherent(),
        follows(j, arcs),
        0 <= x < j.enqueued.len(),
    ensures
        reachable(arcs, j.enqueued[0].0, j.enqueued[x].0),
    decreases x,
{
    if x == 0 {
        let path = seq![j.enqueued[0].0];
        assert(is_path(arcs, path));
        assert(path.first() == j.enqueued[0].0 && path.last() == j.enqueued[0].0);
    } else {
        assert(j.has_origin(x));
        let (i, a) = choose|i: int, a: int| #[trigger] j.born_at(x, i, a);
        assert(j.visits[i].arcs.contains(j.enqueued[x].0));
        assert(j.visit_in_turn(i));
        let v = j.visits[i];
        let y = choose|y: int| 0 <= y < v.known && #[trigger] j.enqueued[y] == (v.key, v.fitness);
        lemma_enqueued_is_reachable(j, arcs, y);
        let to_parent = choose|path: Seq<u64>| #[trigger]
            is_path(arcs, path) && path.first() == j.enqueued[0].0 && path.last() == v.key;
        let path = to_parent.push(j.enqueued[x].0);
        assert forall|n: int| 0 <= n < path.len() - 1 implies arcs(#[trigger] path[n]).contains(
            path[n + 1],
        ) by {
            if n < to_parent.len() - 1 {
                assert(arcs(to_parent[n]).contains(to_parent[n + 1]));
            }
        }
        assert(is_path(arcs, path));
        assert(path.first() == j.enqueued[0].0 && path.last() == j.enqueued[x].0);
    }
}

proof fn lemma_path_stays_enqueued(
    j: Journal,
    arcs: spec_fn(u64) -> Seq<u64>,
    path: Seq<u64>,
    n: int,
)
    requires
        j.coherent(),
        j.exhausted(),
        follows(j, arcs),
        is_path(arcs, path),
        path.first() == j.enqueued[0].0,
        0 <= n < path.len(),
    ensures
        j.holds(path[n]),
    decreases n,
{
    if n == 0 {
        assert(j.enqueued[0].0 == path[0]);
    } else {
        lemma_path_stays_enqueued(j, arcs, path, n - 1);
        let x = choose|x: int|
            0 <= x < j.enqueued.len() && (#[trigger] j.enqueued[x]).0 == path[n - 1];
        assert(j.visited(j.enqueued[x].0));
        let i = choose|i: int|
            0 <= i < j.visits.len() && (#[trigger] j.visits[i]).key == path[n - 1];
        assert(j.expanded(i));
        assert(arcs(path[n - 1]).contains(path[n]));
        let a = choose|a: int| 0 <= a < j.visits[i].arcs.len() && j.visits[i].arcs[a] == path[n];
        assert(j.holds(j.visits[i].arcs[a]));
    }
}

/// On a graph that never meets the goal and scores every state, the
/// search ends exhausted, having scored and reported exactly the states
/// that can be reached from the start, each once.
pub proof fn lemma_exhaustion_covers_reachable<S: State>(
    j: Journal,
    result: Result<S, SearchError>,
    arcs: spec_fn(u64) -> Seq<u64>,
)
    requires
        j.coherent(),
        closed_by(j, result),
        j.goalless(),
        j.refused is None,
        follows(j, arcs),
    ensures
        result == Err::<S, SearchError>(SearchError::Exhausted),
        forall|k: u64| j.holds(k) <==> reachable(arcs, j.enqueued[0].0, k),
        Set::new(|k: u64| reachable(arcs, j.enqueued[0].0, k)).finite(),
        j.score_calls() == Set::new(|k: u64| reachable(arcs, j.enqueued[0].0, k)).len(),
        j.report_calls() == j.score_calls(),
{
    match result {
        Ok(found) => {
            assert(j.visits.last().goal);
        },
        Err(SearchError::Exhausted) => {},
        Err(SearchError::ScoreNotFinite) => {},
    }
    let start = j.enqueued[0].0;
    assert forall|k: u64| j.holds(k) <==> reachable(arcs, start, k) by {
        if j.holds(k) {
            let x = choose|x: int| 0 <= x < j.enqueued.len() && (#[trigger] j.enqueued[x]).0 == k;
            lemma_enqueued_is_reachable(j, arcs, x);
        }
        if reachable(arcs, start, k) {
            let path = choose|path: Seq<u64>| #[trigger]
                is_path(arcs, path) && path.first() == start && path.last() == k;
            lemma_path_stays_enqueued(j, arcs, path, path.len() - 1);
        }
    }
    lemma_enqueued_once(j);
    let reach = Set::new(|k: u64| reachable(arcs, start, k));
    let keys = enqueued_keys(j).to_set();
    assert forall|k: u64| reach.contains(k) <==> keys.contains(k) by {
        assert(keys.contains(k) <==> j.holds(k));
        assert(j.holds(k) <==> reachable(arcs, start, k));
    }
    assert(reach =~= keys);
}

/// When the goal test answers yes on the first state taken, the search
/// returns that state at once: one state was scored, one was reported,
/// and no neighbour was generated.
pub proof fn lemma_goal_at_first_visit<S: State>(j: Journal, result: Result<S, SearchError>)
    requires
        j.coherent(),
        closed_by(j, result),
        j.visits.len() >= 1,
        j.visits[0].goal,
    ensures
        result matches Ok(found) && keyed(found, j.visits[0].key),
        j.report_calls() == 1,
        j.score_calls() == 1,
        j.visits[0].arcs.len() == 0,
        j.enqueued[0].0 == j.visits[0].key,
{
    assert(j.visit_in_turn(0));
    match result {
        Ok(found) => {},
        Err(SearchError::Exhausted) => {},
        Err(SearchError::ScoreNotFinite) => {},
    }
}

/// A problem that has a finite score for every state it may start
/// from, and whose goal test answers yes for each of them, has its
/// search return the start at once: one state was scored, one was
/// reported, and no neighbour was generated.
pub proof fn lemma_goal_at_start<M: Searchable>(j: Journal, result: Result<M::Solution, SearchError>)
    requires
        j.coherent(),
        closed_by(j, result),
        traced::<M>(j),
        forall|k: u64| #[trigger] started_by::<M>(k) ==> !scored_by::<M>(k, None),
        forall|k: u64, fitness: i64|
            started_by::<M>(k) ==> !#[trigger] tested_by::<M>(k, fitness, false),
    ensures
        result matches Ok(found) && keyed(found, j.enqueued[0].0),
        started_by::<M>(j.enqueued[0].0),
        j.report_calls() == 1,
        j.score_calls() == 1,
        j.visits[0].arcs.len() == 0,
{
    if j.visits.len() >= 1 {
        assert(j.visit_in_turn(0));
        assert(tested_by::<M>(j.visits[0].key, j.visits[0].fitness, j.visits[0].goal));
        assert(j.visits[0].goal);
        lemma_goal_at_first_visit(j, result);
    }
}

/// A problem whose goal test never answers yes, that has a finite score
/// for every state, and whose neighbours are those of the graph `arcs`,
/// has its search end exhausted, having scored and reported exactly the
/// states that can be reached from the start, each once.
pub proof fn lemma_exhaustion_of_graph<M: Searchable>(
    j: Journal,
    result: Result<M::Solution, SearchError>,
    arcs: spec_fn(u64) -> Seq<u64>,
)
    requires
        j.coherent(),
        closed_by(j, result),
        traced::<M>(j),
        forall|k: u64, fitness: i64| !#[trigger] tested_by::<M>(k, fitness, true),
        forall|k: u64| !#[trigger] scored_by::<M>(k, None),
        forall|k: u64, given: Seq<u64>| #[trigger] generated_by::<M>(k, given, true) ==> given == arcs(k),
    ensures
        result == Err::<M::Solution, SearchError>(SearchError::Exhausted),
        forall|k: u64| j.holds(k) <==> reachable(arcs, j.enqueued[0].0, k),
        Set::new(|k: u64| reachable(arcs, j.enqueued[0].0, k)).finite(),
        j.score_calls() == Set::new(|k: u64| reachable(arcs, j.enqueued[0].0, k)).len(),
        j.report_calls() == j.score_calls(),
{
    assert forall|i: int| 0 <= i < j.visits.len() implies !(#[trigger] j.visits[i]).goal by {
        assert(tested_by::<M>(j.visits[i].key, j.visits[i].fitness, j.visits[i].goal));
    }
    assert forall|i: int| 0 <= i < j.visits.len() implies (#[trigger] j.visits[i]).arcs == arcs(
        j.visits[i].key,
    ) by {
        assert(generated::<M>(j, i));
    }
    lemma_exhaustion_covers_reachable(j, result, arcs);
}

} // verus!
