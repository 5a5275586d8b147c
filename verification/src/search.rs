use crate::entry::HeapEntry;
use crate::frontier::is_greatest;
use crate::frontier::Frontier;
use crate::journal::closed_by;
use crate::journal::lemma_arc_keeps_coherent;
use crate::journal::lemma_enqueue_keeps_coherent;
use crate::journal::lemma_enqueue_keeps_expanded;
use crate::journal::lemma_enqueue_keeps_holds;
use crate::journal::lemma_seed_is_coherent;
use crate::journal::lemma_visit_keeps_coherent;
use crate::journal::Journal;
use crate::journal::Visit;
use crate::model::keyed;
use crate::model::SearchError;
use crate::model::Searchable;
use crate::model::State;
use crate::trace::answered;
use crate::trace::gave_score;
use crate::trace::generated;
use crate::trace::keys_of;
use crate::trace::reported_by;
use crate::trace::started_by;
use crate::trace::tested_by;
use crate::trace::took_report;
use crate::trace::traced;
use crate::tracker::best_value;
use crate::tracker::climbed;
use crate::tracker::not_worse;
use crate::tracker::rising;
use crate::tracker::values_of;
use crate::tracker::BestTracker;
use std::collections::HashSet;
use vstd::multiset::Multiset;
use vstd::prelude::*;

verus! {

/// How the tracker's log `after` follows from `before` when a copy of
/// `state` is offered with `fitness`: one record of a copy and that
/// fitness is appended when the log was empty or the fitness beats its
/// best, and nothing changes otherwise.
pub open spec fn copy_recorded<S: State>(
    before: Seq<HeapEntry<S>>,
    after: Seq<HeapEntry<S>>,
    state: S,
    fitness: i64,
) -> bool {
    if before.len() == 0 || fitness > before.last().value {
        &&& after.len() == before.len() + 1
        &&& after.drop_last() == before
        &&& after.last().value == fitness
        &&& cloned(state, after.last().item)
    } else {
        after == before
    }
}

/// Whether `entry` holds the fitness with which some state entered the
/// frontier, and a copy of a state with the key of that one.
pub open spec fn copy_of_enqueued<S: State>(j: Journal, entry: HeapEntry<S>) -> bool {
    exists|x: int, state: S|
        0 <= x < j.enqueued.len() && j.enqueued[x].1 == entry.value && #[trigger] keyed(
            state,
            j.enqueued[x].0,
        ) && cloned(state, entry.item)
}

/// Whether every record of `after` beyond those of `before` holds a
/// copy of a state that entered the frontier, with its fitness.
pub open spec fn records_kept<S: State>(
    j: Journal,
    before: Seq<HeapEntry<S>>,
    after: Seq<HeapEntry<S>>,
) -> bool {
    forall|r: int| before.len() <= r < after.len() ==> copy_of_enqueued(j, #[trigger] after[r])
}

/// A state together with the key it answered when the search met it.
struct Tagged<S> {
    key: Ghost<u64>,
    state: S,
}

/// A best-first search engine. It keeps the best state scored in any of
/// its searches, and the journal of the latest one.
pub struct Engine<S> {
    best: BestTracker<S>,
    journal: Ghost<Journal>,
}

impl<S: State> Engine<S> {
    /// The journal of the latest search.
    pub closed spec fn journal(&self) -> Journal {
        self.journal@
    }

    /// The records of the best-ever tracker, oldest first.
    pub closed spec fn records(&self) -> Seq<HeapEntry<S>> {
        self.best@
    }

    /// An engine that has not searched yet.
    pub fn new() -> (engine: Self)
        ensures
            engine.journal() == Journal::empty(),
            engine.records() == Seq::<HeapEntry<S>>::empty(),
    {
        Engine { best: BestTracker::new(), journal: Ghost(Journal::empty()) }
    }

    /// The best state scored so far with its fitness, or `None` when
    /// nothing has been scored.
    pub fn peek_best(&self) -> (best: Option<&HeapEntry<S>>)
        ensures
            best is None <==> self.records().len() == 0,
            best matches Some(entry) ==> {
                &&& *entry == self.records().last()
                &&& forall|i: int|
                    0 <= i < self.records().len() ==> self.records()[i].value <= entry.value
            },
    {
        self.best.peek_best()
    }

    /// Turns a state and the score the problem gave it into a frontier
    /// entry, offering a copy to the best-ever tracker on the way. A
    /// score that is not finite gives no entry and leaves the tracker
    /// alone.
    pub fn entry_for(&mut self, solution: S, score: Option<i64>) -> (scored: Option<
        HeapEntry<S>,
    >)
        ensures
            final(self).journal() == old(self).journal(),
            score is None ==> scored is None && final(self).records() == old(self).records(),
            score matches Some(value) ==> {
                &&& scored == Some(HeapEntry { value, item: solution })
                &&& copy_recorded(
                    old(self).records(),
                    final(self).records(),
                    solution,
                    value,
                )
            },
            rising(old(self).records()) ==> rising(final(self).records()),
            not_worse(best_value(old(self).records()), best_value(final(self).records())),
    {
        match score {
            None => None,
            Some(value) => {
                if self.best.beats(value) {
                    let copy = solution.clone();
                    self.best.record(copy, value);
                    assert(self.best@.drop_last() =~= old(self).best@);
                }
                Some(HeapEntry { value, item: solution })
            },
        }
    }

    /// Has the problem score `solution` and turns the answer into a
    /// frontier entry, as `entry_for` does.
    pub fn heap_entry<M: Searchable<Solution = S>>(&mut self, model: &mut M, solution: S) -> (scored:
        Option<HeapEntry<S>>)
        ensures
            final(self).journal() == old(self).journal(),
            scored is None ==> final(self).records() == old(self).records(),
            gave_score::<M>(
                solution,
                match scored {
                    Some(entry) => Some(entry.value),
                    None => None,
                },
            ),
            scored matches Some(entry) ==> {
                &&& entry.item == solution
                &&& copy_recorded(
                    old(self).records(),
                    final(self).records(),
                    solution,
                    entry.value,
                )
            },
            rising(old(self).records()) ==> rising(final(self).records()),
            not_worse(best_value(old(self).records()), best_value(final(self).records())),
    {
        let score = model.fitness_estimate(&solution);
        self.entry_for(solution, score)
    }

    /// Searches best-first from the problem's start state. The start is
    /// scored and enqueued; then, until a goal is met or nothing is
    /// waiting, a state of greatest fitness is taken from the frontier,
    /// reported, tested, and its neighbours that were not seen before
    /// are scored and enqueued in the order given.
    ///
    /// Returns the first state taken on which the goal test answers yes,
    /// `Exhausted` when the frontier runs empty first, and
    /// `ScoreNotFinite` when a state has no finite score. The journal of
    /// the engine tells afterwards what was enqueued and visited.
    pub fn pathfind<M: Searchable<Solution = S>>(&mut self, model: &mut M) -> (result: Result<
        S,
        SearchError,
    >)
        ensures
            final(self).journal().coherent(),
            closed_by(final(self).journal(), result),
            traced::<M>(final(self).journal()),
            old(self).records().is_prefix_of(final(self).records()),
            values_of(final(self).records()) == climbed(
                values_of(old(self).records()),
                final(self).journal().fitnesses(),
            ),
            records_kept(final(self).journal(), old(self).records(), final(self).records()),
            not_worse(best_value(old(self).records()), best_value(final(self).records())),
            forall|x: int|
                0 <= x < final(self).journal().enqueued.len() ==> not_worse(
                    Some((#[trigger] final(self).journal().enqueued[x]).1),
                    best_value(final(self).records()),
                ),
    {
        broadcast use vstd::std_specs::hash::group_hash_axioms;

        let ghost mut j = Journal::empty();
        let ghost mut held: Map<u64, HeapEntry<Tagged<S>>> = Map::empty();
        let mut open: Frontier<Tagged<S>> = Frontier::new();
        let mut seen: HashSet<u64> = HashSet::new();

        let start = model.start();
        let ghost started = call_ensures(M::start, (&*model,), start);
        let start_key = start.key();
        match self.heap_entry(model, start) {
            None => {
                proof {
                    j = j.refuse(start_key);
                    assert(started);
                    assert(started_by::<M>(start_key));
                    assert(gave_score::<M>(start, None));
                    assert(j.fitnesses() =~= Seq::<i64>::empty());
                }
                self.journal = Ghost(j);
                return Err(SearchError::ScoreNotFinite);
            },
            Some(scored) => {
                let entry = HeapEntry {
                    value: scored.value,
                    item: Tagged { key: Ghost(start_key), state: scored.item },
                };
                proof {
                    assert(started);
                    assert(gave_score::<M>(start, Some(entry.value)));
                    lemma_seed_is_coherent(start_key, entry.value);
                    lemma_tied_after_push(open@, seen@, held, j, entry);
                    assert(j.fitnesses() =~= Seq::<i64>::empty());
                    lemma_climbed_step(old(self).records(), self.records(), start, j, start_key, entry.value);
                    lemma_kept_step(
                        old(self).records(),
                        old(self).records(),
                        self.records(),
                        start,
                        j,
                        start_key,
                        entry.value,
                    );
                    j = j.enqueue(start_key, entry.value);
                    held = held.insert(start_key, entry);
                }
                seen.insert(start_key);
                open.push(entry);
            },
        }

        loop
            invariant
                tied(open@, seen@, held, j),
                j.coherent(),
                j.goalless(),
                j.refused is None,
                j.enqueued.len() >= 1,
                j.visits.len() > 0 ==> j.expanded(j.visits.len() - 1),
                j.visits.len() == 0 ==> j.enqueued.len() == 1,
                traced::<M>(j),
                old(self).records().is_prefix_of(self.records()),
                values_of(self.records()) == climbed(values_of(old(self).records()), j.fitnesses()),
                records_kept(j, old(self).records(), self.records()),
                not_worse(best_value(old(self).records()), best_value(self.records())),
                forall|x: int|
                    0 <= x < j.enqueued.len() ==> not_worse(
                        Some((#[trigger] j.enqueued[x]).1),
                        best_value(self.records()),
                    ),
            decreases usize::MAX - j.visits.len(),
        {
            let ghost waiting = open@;
            let popped = open.pop();
            let entry = match popped {
                None => {
                    proof {
                        lemma_nothing_waiting(open@, seen@, held, j);
                    }
                    self.journal = Ghost(j);
                    return Err(SearchError::Exhausted);
                },
                Some(entry) => entry,
            };
            let ghost taken = entry;
            let HeapEntry { value: fitness, item: Tagged { key: _, state: current } } = entry;
            let ghost key = taken.item.key@;
            let ghost known = j.enqueued.len();

            model.output(&current, fitness);
            let ghost told = took_report::<M>(current, fitness);
            if model.is_goal(&current, fitness) {
                proof {
                    assert(told);
                    assert(call_ensures(M::is_goal, (&*model, &current, fitness), true));
                    let v = Visit { key, fitness, known, goal: true, arcs: Seq::empty() };
                    lemma_tied_after_pop(waiting, seen@, held, j, taken, v);
                    lemma_visit_keeps_coherent(j, v);
                    lemma_traced_after_visit::<M>(j, v);
                    lemma_kept_along(j, j.visit(v), old(self).records(), self.records());
                    j = j.visit(v);
                }
                self.journal = Ghost(j);
                return Ok(current);
            }
            let ghost tested = call_ensures(M::is_goal, (&*model, &current, fitness), false);
            let neighbors = model.neighbors(&current);
            let ghost here = current;
            let ghost list = neighbors;
            let ghost given = *model;
            proof {
                assert(told);
                assert(tested);
                assert(call_ensures(M::neighbors, (&given, &here), list));
                let v = Visit { key, fitness, known, goal: false, arcs: Seq::empty() };
                lemma_tied_after_pop(waiting, seen@, held, j, taken, v);
                lemma_visit_keeps_coherent(j, v);
                lemma_traced_after_visit::<M>(j, v);
                lemma_kept_along(j, j.visit(v), old(self).records(), self.records());
                j = j.visit(v);
                held = held.remove(key);
                vstd::std_specs::hash::axiom_spec_hash_set_len(&seen);
            }
            let ghost turn = j.visits.len() - 1;

            for neighbor in it: neighbors
                invariant
                    tied(open@, seen@, held, j),
                    j.coherent(),
                    j.goalless(),
                    j.refused is None,
                    j.enqueued.len() >= 1,
                    j.visits.len() == turn + 1,
                    turn >= 0,
                    j.expanded(turn),
                    it.seq() == list@,
                    j.visits[turn].arcs.len() == it.index(),
                    j.visits[turn].key == key,
                    keyed(here, key),
                    call_ensures(M::neighbors, (&given, &here), list),
                    keys_of(list@, j.visits[turn].arcs),
                    answered::<M>(j),
                    forall|i: int| 0 <= i < turn ==> #[trigger] generated::<M>(j, i),
                    old(self).records().is_prefix_of(self.records()),
                    values_of(self.records()) == climbed(
                        values_of(old(self).records()),
                        j.fitnesses(),
                    ),
                    records_kept(j, old(self).records(), self.records()),
                    not_worse(best_value(old(self).records()), best_value(self.records())),
                    forall|x: int|
                        0 <= x < j.enqueued.len() ==> not_worse(
                            Some((#[trigger] j.enqueued[x]).1),
                            best_value(self.records()),
                        ),
            {
                let candidate = neighbor.key();
                let ghost at = j.visits[turn].arcs.len() as int;
                proof {
                    assert(!j.visits[turn].goal);
                    lemma_arc_keeps_coherent(j, candidate);
                    lemma_tied_after_arc(open@, seen@, held, j, candidate);
                    lemma_traced_after_arc::<M>(j, candidate);
                    lemma_kept_along(j, j.note_arc(candidate), old(self).records(), self.records());
                    j = j.note_arc(candidate);
                }
                if !seen.contains(&candidate) {
                    let ghost before = self.records();
                    match self.heap_entry(model, neighbor) {
                        None => {
                            proof {
                                lemma_refuse_keeps_coherent(j, candidate);
                                assert(gave_score::<M>(neighbor, None));
                                lemma_traced_after_refusal::<M>(j, candidate);
                                lemma_kept_along(
                                    j,
                                    j.refuse(candidate),
                                    old(self).records(),
                                    self.records(),
                                );
                                j = j.refuse(candidate);
                            }
                            self.journal = Ghost(j);
                            return Err(SearchError::ScoreNotFinite);
                        },
                        Some(scored) => {
                            let entry = HeapEntry {
                                value: scored.value,
                                item: Tagged { key: Ghost(candidate), state: scored.item },
                            };
                            proof {
                                assert(j.visits[turn].arcs[at] == candidate);
                                lemma_enqueue_keeps_coherent(j, candidate, entry.value);
                                lemma_enqueue_keeps_expanded(j, candidate, entry.value, turn, at);
                                lemma_tied_after_push(open@, seen@, held, j, entry);
                                lemma_not_worse_chain(before, self.records(), j, entry.value);
                                lemma_climbed_step(
                                    before,
                                    self.records(),
                                    neighbor,
                                    j,
                                    candidate,
                                    entry.value,
                                );
                                lemma_kept_step(
                                    old(self).records(),
                                    before,
                                    self.records(),
                                    neighbor,
                                    j,
                                    candidate,
                                    entry.value,
                                );
                                assert(gave_score::<M>(neighbor, Some(entry.value)));
                                lemma_traced_after_enqueue::<M>(j, candidate, entry.value);
                                j = j.enqueue(candidate, entry.value);
                                held = held.insert(candidate, entry);
                            }
                            seen.insert(candidate);
                            open.push(entry);
                        },
                    }
                } else {
                    assert(j.holds(candidate));
                }
            }
            proof {
                vstd::std_specs::hash::axiom_spec_hash_set_len(&seen);
                assert(generated::<M>(j, turn));
            }
        }
    }
}

/// How the frontier, the visited set and the journal of a running search
/// hang together. `held` maps the identity of each waiting state to its
/// frontier entry. The visited set holds the states that were enqueued;
/// the waiting ones are those enqueued and not yet visited, each once,
/// with the fitness it was enqueued with.
spec fn tied<S: State>(
    open: Multiset<HeapEntry<Tagged<S>>>,
    seen: Set<u64>,
    held: Map<u64, HeapEntry<Tagged<S>>>,
    j: Journal,
) -> bool {
    &&& seen.finite()
    &&& seen.len() == j.enqueued.len()
    &&& open.len() + j.visits.len() == j.enqueued.len()
    &&& forall|k: u64| #[trigger] seen.contains(k) <==> j.holds(k)
    &&& forall|k: u64| #[trigger] held.dom().contains(k) <==> j.holds(k) && !j.visited(k)
    &&& forall|k: u64| #[trigger]
        held.dom().contains(k) ==> held[k].item.key@ == k && open.count(held[k]) == 1 && keyed(
            held[k].item.state,
            k,
        )
    &&& forall|e: HeapEntry<Tagged<S>>| #[trigger]
        open.count(e) > 0 ==> held.dom().contains(e.item.key@) && held[e.item.key@]
            == e
    &&& forall|x: int|
        0 <= x < j.enqueued.len() && held.dom().contains((#[trigger] j.enqueued[x]).0)
            ==> held[j.enqueued[x].0].value == j.enqueued[x].1
}

/// A state that was visited had been enqueued.
proof fn lemma_visited_was_enqueued(j: Journal, key: u64)
    requires
        j.coherent(),
        j.visited(key),
    ensures
        j.holds(key),
{
    let i = choose|i: int| 0 <= i < j.visits.len() && (#[trigger] j.visits[i]).key == key;
    assert(j.visit_in_turn(i));
    let v = j.visits[i];
    let x = choose|x: int| 0 <= x < v.known && #[trigger] j.enqueued[x] == (v.key, v.fitness);
    assert(j.enqueued[x].0 == key);
}

/// Enqueueing a state that was not seen before keeps the search tied.
proof fn lemma_tied_after_push<S: State>(
    open: Multiset<HeapEntry<Tagged<S>>>,
    seen: Set<u64>,
    held: Map<u64, HeapEntry<Tagged<S>>>,
    j: Journal,
    entry: HeapEntry<Tagged<S>>,
)
    requires
        tied(open, seen, held, j),
        j.coherent(),
        !seen.contains(entry.item.key@),
        keyed(entry.item.state, entry.item.key@),
    ensures
        tied(
            open.insert(entry),
            seen.insert(entry.item.key@),
            held.insert(entry.item.key@, entry),
            j.enqueue(entry.item.key@, entry.value),
        ),
{
    broadcast use vstd::multiset::group_multiset_axioms;

    let key = entry.item.key@;
    let after = j.enqueue(key, entry.value);
    let open2 = open.insert(entry);
    let seen2 = seen.insert(key);
    let held2 = held.insert(key, entry);
    assert(!j.holds(key));
    if j.visited(key) {
        lemma_visited_was_enqueued(j, key);
    }
    assert forall|k: u64| j.visited(k) == after.visited(k) by {
        if j.visited(k) {
            let i = choose|i: int| 0 <= i < j.visits.len() && (#[trigger] j.visits[i]).key == k;
            assert(after.visits[i].key == k);
        }
        if after.visited(k) {
            let i = choose|i: int|
                0 <= i < after.visits.len() && (#[trigger] after.visits[i]).key == k;
            assert(j.visits[i].key == k);
        }
    }
    assert forall|k: u64| after.holds(k) <==> (j.holds(k) || k == key) by {
        if j.holds(k) || k == key {
            lemma_enqueue_keeps_holds(j, key, entry.value, k);
        }
        if after.holds(k) {
            let x = choose|x: int|
                0 <= x < after.enqueued.len() && (#[trigger] after.enqueued[x]).0 == k;
            if x < j.enqueued.len() {
                assert(j.enqueued[x].0 == k);
            }
        }
    }
    assert forall|k: u64| #[trigger] seen2.contains(k) <==> after.holds(k) by {}
    assert forall|k: u64| #[trigger] held2.dom().contains(k) <==> after.holds(k) && !after.visited(
        k,
    ) by {}
    if open.count(entry) > 0 {
        assert(held.dom().contains(key));
        assert(j.holds(key));
    }
    assert forall|k: u64| #[trigger] held2.dom().contains(k) implies held2[k].item.key@ == k
        && open2.count(held2[k]) == 1 by {
        if k != key {
            assert(held.dom().contains(k));
            assert(held[k] != entry);
        }
    }
    assert forall|e: HeapEntry<Tagged<S>>| #[trigger] open2.count(e) > 0 implies held2.dom().contains(
        e.item.key@,
    ) && held2[e.item.key@] == e by {
        if e != entry {
            assert(open.count(e) > 0);
        }
    }
    assert forall|x: int|
        0 <= x < after.enqueued.len() && held2.dom().contains(
            (#[trigger] after.enqueued[x]).0,
        ) implies held2[after.enqueued[x].0].value == after.enqueued[x].1 by {
        if x < j.enqueued.len() {
            if j.enqueued[x].0 == key {
                assert(j.holds(key));
            }
            assert(held.dom().contains(j.enqueued[x].0));
        }
    }
}

/// Taking a state of greatest fitness from the frontier keeps the search
/// tied, and the state taken is one that the journal can admit as its
/// next visit.
proof fn lemma_tied_after_pop<S: State>(
    open: Multiset<HeapEntry<Tagged<S>>>,
    seen: Set<u64>,
    held: Map<u64, HeapEntry<Tagged<S>>>,
    j: Journal,
    entry: HeapEntry<Tagged<S>>,
    v: Visit,
)
    requires
        tied(open, seen, held, j),
        j.coherent(),
        open.count(entry) > 0,
        is_greatest(open, entry),
        v.key == entry.item.key@,
        v.fitness == entry.value,
    ensures
        tied(open.remove(entry), seen, held.remove(entry.item.key@), j.visit(v)),
        exists|x: int| 0 <= x < j.enqueued.len() && #[trigger] j.enqueued[x] == (v.key, v.fitness),
        !j.visited(v.key),
        forall|x: int|
            0 <= x < j.enqueued.len() && (#[trigger] j.enqueued[x]).1 > v.fitness ==> j.visited(
                j.enqueued[x].0,
            ),
        keyed(entry.item.state, v.key),
{
    broadcast use vstd::multiset::group_multiset_axioms;

    let key = entry.item.key@;
    let after = j.visit(v);
    let open2 = open.remove(entry);
    let held2 = held.remove(key);
    assert(held.dom().contains(key) && held[key] == entry);
    assert(j.holds(key) && !j.visited(key));
    let at = choose|x: int| 0 <= x < j.enqueued.len() && (#[trigger] j.enqueued[x]).0 == key;
    assert(j.enqueued[at] == (v.key, v.fitness));
    assert forall|x: int|
        0 <= x < j.enqueued.len() && (#[trigger] j.enqueued[x]).1 > v.fitness implies j.visited(
        j.enqueued[x].0,
    ) by {
        let k = j.enqueued[x].0;
        if !j.visited(k) {
            assert(j.holds(k));
            assert(held.dom().contains(k));
            assert(open.count(held[k]) > 0);
        }
    }
    assert forall|k: u64| after.visited(k) <==> (j.visited(k) || k == key) by {
        if j.visited(k) {
            let i = choose|i: int| 0 <= i < j.visits.len() && (#[trigger] j.visits[i]).key == k;
            assert(after.visits[i].key == k);
        }
        if k == key {
            assert(after.visits[j.visits.len() as int].key == k);
        }
        if after.visited(k) {
            let i = choose|i: int|
                0 <= i < after.visits.len() && (#[trigger] after.visits[i]).key == k;
            if i < j.visits.len() {
                assert(j.visits[i].key == k);
            }
        }
    }
    assert forall|k: u64| #[trigger] held2.dom().contains(k) <==> after.holds(k) && !after.visited(
        k,
    ) by {
        assert(held.dom().contains(k) <==> j.holds(k) && !j.visited(k));
    }
    assert forall|k: u64| #[trigger] held2.dom().contains(k) implies held2[k].item.key@ == k
        && open2.count(held2[k]) == 1 by {
        assert(held.dom().contains(k));
    }
    assert forall|e: HeapEntry<Tagged<S>>| #[trigger] open2.count(e) > 0 implies held2.dom().contains(
        e.item.key@,
    ) && held2[e.item.key@] == e by {
        assert(open.count(e) > 0);
    }
}

/// Once nothing is waiting, every state that was enqueued has been
/// visited.
proof fn lemma_nothing_waiting<S: State>(
    open: Multiset<HeapEntry<Tagged<S>>>,
    seen: Set<u64>,
    held: Map<u64, HeapEntry<Tagged<S>>>,
    j: Journal,
)
    requires
        tied(open, seen, held, j),
        open.len() == 0,
    ensures
        forall|x: int| 0 <= x < j.enqueued.len() ==> j.visited((#[trigger] j.enqueued[x]).0),
{
    broadcast use vstd::multiset::group_multiset_axioms;

    assert forall|x: int| 0 <= x < j.enqueued.len() implies j.visited(
        (#[trigger] j.enqueued[x]).0,
    ) by {
        let k = j.enqueued[x].0;
        assert(j.holds(k));
        if !j.visited(k) {
            assert(held.dom().contains(k));
            assert(open.count(held[k]) > 0);
            vstd::multiset::lemma_multiset_empty_len(open);
        }
    }
}

/// Refusing a score leaves what was enqueued and visited as it was.
proof fn lemma_refuse_keeps_coherent(j: Journal, key: u64)
    requires
        j.coherent(),
    ensures
        j.refuse(key).coherent(),
        j.goalless() ==> j.refuse(key).goalless(),
        j.holds(key) == j.refuse(key).holds(key),
        forall|i: int, upto: int|
            j.expanded_to(i, upto) ==> #[trigger] j.refuse(key).expanded_to(i, upto),
{
    let after = j.refuse(key);
    assert(after.enqueued == j.enqueued);
    assert(after.visits == j.visits);
    assert forall|i: int| 0 <= i < after.visits.len() implies #[trigger] after.visit_in_turn(i) by {
        assert(j.visit_in_turn(i));
        if i > 0 {
            assert(j.spread_within(i - 1, j.visits[i].known as int));
        }
    }
    assert forall|i: int, x: int|
        0 <= i < after.visits.len() && 0 <= x < after.enqueued.len() implies #[trigger] after.greedy_at(
        i,
        x,
    ) by {
        assert(j.greedy_at(i, x));
    }
    assert forall|x: int| 1 <= x < after.enqueued.len() implies #[trigger] after.has_origin(x) by {
        assert(j.has_origin(x));
        let (i, a) = choose|i: int, a: int| #[trigger] j.born_at(x, i, a);
        assert(after.born_at(x, i, a));
    }
    assert forall|i: int| 0 <= i < after.visits.len() - 1 implies #[trigger] after.expanded(i) by {
        assert(j.expanded(i));
    }
}

/// After one more score was offered to the tracker, its best fitness is
/// no lower than that score nor than any fitness enqueued before.
proof fn lemma_not_worse_chain<S>(
    before: Seq<HeapEntry<S>>,
    after: Seq<HeapEntry<S>>,
    j: Journal,
    fitness: i64,
)
    requires
        not_worse(best_value(before), best_value(after)),
        forall|x: int|
            0 <= x < j.enqueued.len() ==> not_worse(
                Some((#[trigger] j.enqueued[x]).1),
                best_value(before),
            ),
    ensures
        forall|x: int|
            0 <= x < j.enqueued.len() ==> not_worse(
                Some((#[trigger] j.enqueued[x]).1),
                best_value(after),
            ),
{
}

/// Taking note of one more neighbour of the latest visit keeps the
/// search tied.
proof fn lemma_tied_after_arc<S: State>(
    open: Multiset<HeapEntry<Tagged<S>>>,
    seen: Set<u64>,
    held: Map<u64, HeapEntry<Tagged<S>>>,
    j: Journal,
    key: u64,
)
    requires
        tied(open, seen, held, j),
        j.coherent(),
        j.visits.len() >= 1,
        !j.visits.last().goal,
    ensures
        tied(open, seen, held, j.note_arc(key)),
{
    lemma_arc_keeps_coherent(j, key);
    let after = j.note_arc(key);
    assert forall|k: u64| #[trigger] seen.contains(k) <==> after.holds(k) by {
        assert(j.holds(k) == after.holds(k));
    }
    assert forall|k: u64| #[trigger] held.dom().contains(k) <==> after.holds(k) && !after.visited(
        k,
    ) by {
        assert(j.holds(k) == after.holds(k));
        assert(j.visited(k) == after.visited(k));
    }
}

/// A visit keeps the answers in the journal traced to the problem, when
/// the goal test gave its answer for the state visited.
proof fn lemma_traced_after_visit<M: Searchable>(j: Journal, v: Visit)
    requires
        traced::<M>(j),
        j.refused is None,
        reported_by::<M>(v.key, v.fitness),
        tested_by::<M>(v.key, v.fitness, v.goal),
    ensures
        answered::<M>(j.visit(v)),
        forall|i: int| 0 <= i < j.visits.len() ==> #[trigger] generated::<M>(j.visit(v), i),
        v.goal ==> traced::<M>(j.visit(v)),
{
    let after = j.visit(v);
    assert forall|i: int| 0 <= i < j.visits.len() implies #[trigger] generated::<M>(after, i) by {
        assert(generated::<M>(j, i));
        assert(after.visits[i] == j.visits[i]);
    }
    assert forall|i: int| 0 <= i < after.visits.len() implies tested_by::<M>(
        (#[trigger] after.visits[i]).key,
        after.visits[i].fitness,
        after.visits[i].goal,
    ) && reported_by::<M>(after.visits[i].key, after.visits[i].fitness) by {
        if i < j.visits.len() {
            assert(after.visits[i] == j.visits[i]);
        }
    }
}

/// One more neighbour of the latest visit keeps the answers and the
/// earlier visits traced to the problem.
proof fn lemma_traced_after_arc<M: Searchable>(j: Journal, key: u64)
    requires
        j.coherent(),
        j.visits.len() >= 1,
        !j.visits.last().goal,
        answered::<M>(j),
        forall|i: int| 0 <= i < j.visits.len() - 1 ==> #[trigger] generated::<M>(j, i),
    ensures
        answered::<M>(j.note_arc(key)),
        forall|i: int| 0 <= i < j.visits.len() - 1 ==> #[trigger] generated::<M>(j.note_arc(key), i),
{
    lemma_arc_keeps_coherent(j, key);
    let after = j.note_arc(key);
    let last = j.visits.len() - 1;
    assert forall|i: int| 0 <= i < j.visits.len() - 1 implies #[trigger] generated::<M>(
        after,
        i,
    ) by {
        assert(generated::<M>(j, i));
        assert(after.visits[i] == j.visits[i]);
    }
    assert forall|i: int| 0 <= i < after.visits.len() implies tested_by::<M>(
        (#[trigger] after.visits[i]).key,
        after.visits[i].fitness,
        after.visits[i].goal,
    ) && reported_by::<M>(after.visits[i].key, after.visits[i].fitness) by {
        assert(tested_by::<M>(j.visits[i].key, j.visits[i].fitness, j.visits[i].goal));
        assert(reported_by::<M>(j.visits[i].key, j.visits[i].fitness));
        if i < last {
            assert(after.visits[i] == j.visits[i]);
        }
    }
}

/// A state that enters the frontier with the fitness the problem gave
/// it keeps the answers and the earlier visits traced to the problem.
proof fn lemma_traced_after_enqueue<M: Searchable>(j: Journal, key: u64, fitness: i64)
    requires
        j.enqueued.len() >= 1,
        answered::<M>(j),
        crate::trace::scored_by::<M>(key, Some(fitness)),
    ensures
        answered::<M>(j.enqueue(key, fitness)),
        forall|i: int|
            0 <= i < j.visits.len() && generated::<M>(j, i) ==> #[trigger] generated::<M>(
                j.enqueue(key, fitness),
                i,
            ),
{
    let after = j.enqueue(key, fitness);
    assert forall|x: int| 0 <= x < after.enqueued.len() implies crate::trace::scored_by::<M>(
        (#[trigger] after.enqueued[x]).0,
        Some(after.enqueued[x].1),
    ) by {
        if x < j.enqueued.len() {
            assert(after.enqueued[x] == j.enqueued[x]);
        }
    }
}

/// A refused score keeps the answers traced to the problem, and the
/// visits too when the latest one got its neighbours from the problem.
proof fn lemma_traced_after_refusal<M: Searchable>(j: Journal, key: u64)
    requires
        j.refused is None,
        j.visits.len() >= 1,
        j.enqueued.len() >= 1,
        answered::<M>(j),
        crate::trace::scored_by::<M>(key, None),
        forall|i: int| 0 <= i < j.visits.len() - 1 ==> #[trigger] generated::<M>(j, i),
        crate::trace::generated_by::<M>(j.visits.last().key, j.visits.last().arcs, false),
    ensures
        traced::<M>(j.refuse(key)),
{
    let after = j.refuse(key);
    assert forall|i: int| 0 <= i < after.visits.len() implies #[trigger] generated::<M>(after, i) by {
        if i < j.visits.len() - 1 {
            assert(generated::<M>(j, i));
        }
    }
}

/// Offering the tracker a copy of a state that then enters the frontier
/// is one more step of the climb of its records over the fitness
/// enqueued.
proof fn lemma_climbed_step<S: State>(
    before: Seq<HeapEntry<S>>,
    after: Seq<HeapEntry<S>>,
    state: S,
    j: Journal,
    key: u64,
    fitness: i64,
)
    requires
        copy_recorded(before, after, state, fitness),
    ensures
        forall|base: Seq<i64>|
            values_of(before) == climbed(base, j.fitnesses()) ==> values_of(after) == #[trigger] climbed(
                base,
                j.enqueue(key, fitness).fitnesses(),
            ),
{
    let grown = j.enqueue(key, fitness).fitnesses();
    assert(grown.drop_last() =~= j.fitnesses());
    assert(grown.last() == fitness);
    if before.len() == 0 || fitness > before.last().value {
        assert(values_of(after) =~= values_of(before).push(fitness));
    }
}

/// What the tracker kept stays a copy of what entered the frontier
/// while nothing more enters it.
proof fn lemma_kept_along<S: State>(
    j: Journal,
    later: Journal,
    before: Seq<HeapEntry<S>>,
    after: Seq<HeapEntry<S>>,
)
    requires
        records_kept(j, before, after),
        later.enqueued == j.enqueued,
    ensures
        records_kept(later, before, after),
{
    assert forall|r: int| before.len() <= r < after.len() implies copy_of_enqueued(
        later,
        #[trigger] after[r],
    ) by {
        assert(copy_of_enqueued(j, after[r]));
        let (x, state) = choose|x: int, state: S|
            0 <= x < j.enqueued.len() && j.enqueued[x].1 == after[r].value && #[trigger] keyed(
                state,
                j.enqueued[x].0,
            ) && cloned(state, after[r].item);
        assert(keyed(state, later.enqueued[x].0));
    }
}

/// A record that the tracker adds for a state that then enters the
/// frontier is a copy of a state that entered it.
proof fn lemma_kept_step<S: State>(
    base: Seq<HeapEntry<S>>,
    before: Seq<HeapEntry<S>>,
    after: Seq<HeapEntry<S>>,
    state: S,
    j: Journal,
    key: u64,
    fitness: i64,
)
    requires
        records_kept(j, base, before),
        copy_recorded(before, after, state, fitness),
        keyed(state, key),
    ensures
        records_kept(j.enqueue(key, fitness), base, after),
{
    let grown = j.enqueue(key, fitness);
    assert forall|r: int| base.len() <= r < after.len() implies copy_of_enqueued(
        grown,
        #[trigger] after[r],
    ) by {
        if r < before.len() {
            assert(after[r] == before[r]) by {
                if after != before {
                    assert(after.drop_last()[r] == after[r]);
                }
            }
            assert(copy_of_enqueued(j, before[r]));
            let (x, known) = choose|x: int, known: S|
                0 <= x < j.enqueued.len() && j.enqueued[x].1 == before[r].value && #[trigger] keyed(
                    known,
                    j.enqueued[x].0,
                ) && cloned(known, before[r].item);
            assert(keyed(known, grown.enqueued[x].0));
        } else {
            let x = j.enqueued.len() as int;
            assert(keyed(state, grown.enqueued[x].0));
        }
    }
}

} // verus!
