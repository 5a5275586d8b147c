use crate::model::keyed;
use crate::model::SearchError;
use crate::model::State;
use vstd::prelude::*;

verus! {

/// What a search did with one state that it took from the frontier.
pub struct Visit {
    /// The identity of the state.
    pub key: u64,
    /// The fitness the state had been given when it was enqueued.
    pub fitness: i64,
    /// How many states had been enqueued by the time this one was taken:
    /// the start, and every neighbour of an earlier visit that was new
    /// when it was generated.
    pub known: nat,
    /// What the goal test answered for it.
    pub goal: bool,
    /// The identities of the neighbours generated for it, in the order
    /// they were asked for their keys; empty when the goal test stopped
    /// the search.
    pub arcs: Seq<u64>,
}

/// The record of one search: which states entered the frontier and with
/// what fitness, and which were taken out and reported, both in order.
pub struct Journal {
    /// Identity and fitness of every state that entered the frontier.
    pub enqueued: Seq<(u64, i64)>,
    /// Every state taken from the frontier and reported.
    pub visits: Seq<Visit>,
    /// The identity of the state whose score was not finite, if the
    /// search ended on one.
    pub refused: Option<u64>,
}

impl Journal {
    /// The journal of a search that has not begun.
    pub open spec fn empty() -> Journal {
        Journal { enqueued: Seq::empty(), visits: Seq::empty(), refused: None }
    }

    /// The journal after one more state has entered the frontier.
    pub open spec fn enqueue(self, key: u64, fitness: i64) -> Journal {
        Journal { enqueued: self.enqueued.push((key, fitness)), ..self }
    }

    /// The journal after one more state has been taken and reported.
    pub open spec fn visit(self, v: Visit) -> Journal {
        Journal { visits: self.visits.push(v), ..self }
    }

    /// The journal after a score came back not finite.
    pub open spec fn refuse(self, key: u64) -> Journal {
        Journal { refused: Some(key), ..self }
    }

    /// The journal after the latest visit has generated one more
    /// neighbour.
    pub open spec fn note_arc(self, key: u64) -> Journal {
        let last = self.visits.last();
        Journal {
            visits: self.visits.update(
                self.visits.len() - 1,
                Visit { arcs: last.arcs.push(key), ..last },
            ),
            ..self
        }
    }

    /// The fitness of each state that entered the frontier, in order.
    pub open spec fn fitnesses(self) -> Seq<i64> {
        Seq::new(self.enqueued.len(), |x: int| self.enqueued[x].1)
    }

    /// How many scores the journal holds: one for each state that
    /// entered the frontier, and one for the state whose score was not
    /// finite, if the search ended on one.
    pub open spec fn score_calls(self) -> nat {
        if self.refused is Some {
            self.enqueued.len() + 1
        } else {
            self.enqueued.len()
        }
    }

    /// How many reports the journal holds: one for each state taken from
    /// the frontier.
    pub open spec fn report_calls(self) -> nat {
        self.visits.len()
    }

    /// Whether `key` is among the first `upto` states enqueued.
    pub open spec fn enqueued_within(self, key: u64, upto: int) -> bool {
        exists|j: int|
            0 <= j < upto && j < self.enqueued.len() && (#[trigger] self.enqueued[j]).0 == key
    }

    /// Whether `key` has entered the frontier.
    pub open spec fn holds(self, key: u64) -> bool {
        self.enqueued_within(key, self.enqueued.len() as int)
    }

    /// Whether `key` is among the first `upto` states visited.
    pub open spec fn visited_within(self, key: u64, upto: int) -> bool {
        exists|i: int| 0 <= i < upto && i < self.visits.len() && (#[trigger] self.visits[i]).key == key
    }

    /// Whether `key` has been taken from the frontier.
    pub open spec fn visited(self, key: u64) -> bool {
        self.visited_within(key, self.visits.len() as int)
    }

    /// No state entered the frontier twice.
    pub open spec fn deduplicated(self) -> bool {
        forall|a: int, b: int|
            0 <= a < b < self.enqueued.len() ==> (#[trigger] self.enqueued[a]).0 != (
            #[trigger] self.enqueued[b]).0
    }

    /// No state was taken from the frontier twice.
    pub open spec fn visits_distinct(self) -> bool {
        forall|a: int, b: int|
            0 <= a < b < self.visits.len() ==> (#[trigger] self.visits[a]).key != (
            #[trigger] self.visits[b]).key
    }

    /// Every neighbour generated by the `i`-th visit is among the first
    /// `upto` states enqueued.
    pub open spec fn spread_within(self, i: int, upto: int) -> bool {
        forall|a: int|
            0 <= a < self.visits[i].arcs.len() ==> self.enqueued_within(
                #[trigger] self.visits[i].arcs[a],
                upto,
            )
    }

    /// The `i`-th visit took a state that had been enqueued before, with
    /// the fitness it was enqueued with; the first visit found exactly
    /// one state enqueued; a later visit found enqueued every neighbour
    /// that the visit before it had generated; and a visit on which the
    /// goal test answered yes is the last one and generated no
    /// neighbours.
    pub open spec fn visit_in_turn(self, i: int) -> bool {
        let v = self.visits[i];
        &&& 1 <= v.known <= self.enqueued.len()
        &&& (i == 0 ==> v.known == 1)
        &&& (i > 0 ==> self.visits[i - 1].known <= v.known)
        &&& (i > 0 ==> self.spread_within(i - 1, v.known as int))
        &&& exists|j: int| 0 <= j < v.known && #[trigger] self.enqueued[j] == (v.key, v.fitness)
        &&& (v.goal ==> i == self.visits.len() - 1 && v.arcs.len() == 0)
    }

    /// When the `i`-th visit was made, the `j`-th enqueued state either
    /// was not known yet, had been visited already, or had a fitness no
    /// greater than that of the state visited.
    pub open spec fn greedy_at(self, i: int, j: int) -> bool {
        j < self.visits[i].known && self.enqueued[j].1 > self.visits[i].fitness
            ==> self.visited_within(self.enqueued[j].0, i)
    }

    /// The `x`-th enqueued state entered the frontier as the `a`-th
    /// neighbour of the `i`-th visit: after that visit was made and
    /// before the next one, and when every neighbour generated before it
    /// by that visit had been enqueued.
    pub open spec fn born_at(self, x: int, i: int, a: int) -> bool {
        &&& 0 <= i < self.visits.len()
        &&& self.visits[i].known <= x
        &&& (i + 1 < self.visits.len() ==> x < self.visits[i + 1].known)
        &&& 0 <= a < self.visits[i].arcs.len()
        &&& self.visits[i].arcs[a] == self.enqueued[x].0
        &&& forall|b: int|
            0 <= b < a ==> self.enqueued_within(#[trigger] self.visits[i].arcs[b], x)
    }

    /// The `x`-th enqueued state entered the frontier as a neighbour of
    /// some visit, in its turn among the neighbours of that visit.
    pub open spec fn has_origin(self, x: int) -> bool {
        exists|i: int, a: int| #[trigger] self.born_at(x, i, a)
    }

    /// The first `upto` neighbours generated by the `i`-th visit have
    /// entered the frontier, then or earlier.
    pub open spec fn expanded_to(self, i: int, upto: int) -> bool {
        forall|a: int|
            0 <= a < upto && a < self.visits[i].arcs.len() ==> self.holds(
                #[trigger] self.visits[i].arcs[a],
            )
    }

    /// Every neighbour generated by the `i`-th visit has entered the
    /// frontier, then or earlier.
    pub open spec fn expanded(self, i: int) -> bool {
        self.expanded_to(i, self.visits[i].arcs.len() as int)
    }

    /// The goal test answered no on every visit.
    pub open spec fn goalless(self) -> bool {
        forall|i: int| 0 <= i < self.visits.len() ==> !(#[trigger] self.visits[i]).goal
    }

    /// Every visit but possibly the last was expanded in full.
    pub open spec fn expanded_before_last(self) -> bool {
        forall|i: int| 0 <= i < self.visits.len() - 1 ==> #[trigger] self.expanded(i)
    }

    /// What holds of the journal of every search, however the model
    /// behaves: nothing is enqueued or visited twice; what is visited was
    /// enqueued before; each visit takes a state of greatest fitness
    /// among those enqueued by then and not visited; between two visits
    /// exactly the new neighbours of the earlier one are enqueued, in
    /// the order they were generated; and every visit before the last
    /// was expanded in full.
    pub open spec fn coherent(self) -> bool {
        &&& self.deduplicated()
        &&& self.visits_distinct()
        &&& forall|i: int| 0 <= i < self.visits.len() ==> #[trigger] self.visit_in_turn(i)
        &&& forall|i: int, j: int|
            0 <= i < self.visits.len() && 0 <= j < self.enqueued.len() ==> #[trigger] self.greedy_at(
                i,
                j,
            )
        &&& forall|j: int| 1 <= j < self.enqueued.len() ==> #[trigger] self.has_origin(j)
        &&& self.expanded_before_last()
    }

    /// The search ran out of states: no goal test answered yes, no score
    /// was refused, and every state that entered the frontier was
    /// visited and expanded in full.
    pub open spec fn exhausted(self) -> bool {
        &&& self.goalless()
        &&& self.refused is None
        &&& self.enqueued.len() >= 1
        &&& self.visits.len() == self.enqueued.len()
        &&& forall|i: int| 0 <= i < self.visits.len() ==> #[trigger] self.expanded(i)
        &&& forall|j: int|
            0 <= j < self.enqueued.len() ==> self.visited((#[trigger] self.enqueued[j]).0)
    }

    /// The search stopped at its goal: the goal test answered yes on the
    /// last visit, and nothing was enqueued afterwards.
    pub open spec fn reached(self) -> bool {
        &&& self.visits.len() >= 1
        &&& self.visits.last().goal
        &&& self.visits.last().known == self.enqueued.len()
        &&& self.refused is None
    }

    /// The search stopped because a score was not finite. The state was
    /// not enqueued, and no goal test had answered yes. It was either
    /// the start, with nothing enqueued or visited, or the neighbour
    /// that the latest visit generated last, every neighbour before it
    /// having been enqueued.
    pub open spec fn broken_off(self) -> bool {
        &&& self.goalless()
        &&& self.refused matches Some(key) && !self.holds(key) && {
            ||| self.enqueued.len() == 0 && self.visits.len() == 0
            ||| {
                &&& self.visits.len() >= 1
                &&& self.visits.last().arcs.len() >= 1
                &&& self.visits.last().arcs.last() == key
                &&& self.expanded_to(
                    self.visits.len() - 1,
                    self.visits.last().arcs.len() - 1,
                )
            }
        }
    }
}

/// Whether the journal is that of a search that ended with `result`.
pub open spec fn closed_by<S: State>(j: Journal, result: Result<S, SearchError>) -> bool {
    match result {
        Ok(found) => j.reached() && keyed(found, j.visits.last().key),
        Err(SearchError::Exhausted) => j.exhausted(),
        Err(SearchError::ScoreNotFinite) => j.broken_off(),
    }
}

/// The journal stays coherent when the first state enters the frontier.
pub proof fn lemma_seed_is_coherent(key: u64, fitness: i64)
    ensures
        Journal::empty().enqueue(key, fitness).coherent(),
        Journal::empty().enqueue(key, fitness).goalless(),
{
}

/// Whatever had entered the frontier before one more state did is still
/// counted as having entered it.
pub proof fn lemma_enqueue_keeps_holds(j: Journal, key: u64, fitness: i64, other: u64)
    requires
        j.holds(other) || other == key,
    ensures
        j.enqueue(key, fitness).holds(other),
{
    let after = j.enqueue(key, fitness);
    if j.holds(other) {
        let x = choose|x: int| 0 <= x < j.enqueued.len() && (#[trigger] j.enqueued[x]).0 == other;
        assert(after.enqueued[x].0 == other);
    } else {
        assert(after.enqueued[j.enqueued.len() as int].0 == other);
    }
}

/// Enqueueing keeps what a visit had already expanded, and covers one
/// more neighbour when that neighbour is the state enqueued.
pub proof fn lemma_enqueue_keeps_expanded(j: Journal, key: u64, fitness: i64, i: int, upto: int)
    requires
        0 <= i < j.visits.len(),
        j.expanded_to(i, upto),
    ensures
        j.enqueue(key, fitness).expanded_to(i, upto),
        0 <= upto < j.visits[i].arcs.len() && j.visits[i].arcs[upto] == key ==> j.enqueue(
            key,
            fitness,
        ).expanded_to(i, upto + 1),
{
    let after = j.enqueue(key, fitness);
    assert forall|a: int| 0 <= a < upto + 1 && a < after.visits[i].arcs.len() && (a < upto
        || j.visits[i].arcs[upto] == key) implies after.holds(#[trigger] after.visits[i].arcs[a]) by {
        lemma_enqueue_keeps_holds(j, key, fitness, j.visits[i].arcs[a]);
    }
}

/// What was among the first `upto` states enqueued stays so when more
/// states are enqueued.
pub proof fn lemma_enqueue_keeps_within(j: Journal, key: u64, fitness: i64, other: u64, upto: int)
    requires
        j.enqueued_within(other, upto),
    ensures
        j.enqueue(key, fitness).enqueued_within(other, upto),
{
    let x = choose|x: int|
        0 <= x < upto && x < j.enqueued.len() && (#[trigger] j.enqueued[x]).0 == other;
    assert(j.enqueue(key, fitness).enqueued[x].0 == other);
}

/// The journal stays coherent when the neighbour that the latest visit
/// generated last, not enqueued before, enters the frontier after every
/// neighbour generated before it.
pub proof fn lemma_enqueue_keeps_coherent(j: Journal, key: u64, fitness: i64)
    requires
        j.coherent(),
        !j.holds(key),
        j.visits.len() >= 1,
        j.visits.last().arcs.len() >= 1,
        j.visits.last().arcs.last() == key,
        j.expanded_to(j.visits.len() - 1, j.visits.last().arcs.len() - 1),
    ensures
        j.enqueue(key, fitness).coherent(),
        j.goalless() ==> j.enqueue(key, fitness).goalless(),
{
    let after = j.enqueue(key, fitness);
    let n = j.enqueued.len() as int;
    let last = j.visits.len() - 1;
    assert forall|a: int, b: int| 0 <= a < b < after.enqueued.len() implies (
    #[trigger] after.enqueued[a]).0 != (#[trigger] after.enqueued[b]).0 by {
        if b == n {
            if j.enqueued[a].0 == key {
                assert(j.holds(key));
            }
        }
    }
    assert forall|i: int| 0 <= i < after.visits.len() implies #[trigger] after.visit_in_turn(i) by {
        assert(j.visit_in_turn(i));
        let v = j.visits[i];
        let x = choose|x: int| 0 <= x < v.known && #[trigger] j.enqueued[x] == (v.key, v.fitness);
        assert(after.enqueued[x] == (v.key, v.fitness));
        if i > 0 {
            assert forall|a: int| 0 <= a < after.visits[i - 1].arcs.len() implies after.enqueued_within(
                #[trigger] after.visits[i - 1].arcs[a],
                v.known as int,
            ) by {
                lemma_enqueue_keeps_within(j, key, fitness, j.visits[i - 1].arcs[a], v.known as int);
            }
        }
    }
    assert forall|i: int, x: int|
        0 <= i < after.visits.len() && 0 <= x < after.enqueued.len() implies #[trigger] after.greedy_at(
        i,
        x,
    ) by {
        assert(j.visit_in_turn(i));
        if x < n {
            assert(j.greedy_at(i, x));
        }
    }
    assert forall|x: int| 1 <= x < after.enqueued.len() implies #[trigger] after.has_origin(x) by {
        if x < n {
            assert(j.has_origin(x));
            let (i, a) = choose|i: int, a: int| #[trigger] j.born_at(x, i, a);
            assert forall|b: int| 0 <= b < a implies after.enqueued_within(
                #[trigger] after.visits[i].arcs[b],
                x,
            ) by {
                lemma_enqueue_keeps_within(j, key, fitness, j.visits[i].arcs[b], x);
            }
            assert(after.born_at(x, i, a));
        } else {
            let a = j.visits[last].arcs.len() - 1;
            assert(j.visit_in_turn(last));
            assert forall|b: int| 0 <= b < a implies after.enqueued_within(
                #[trigger] after.visits[last].arcs[b],
                x,
            ) by {
                assert(j.holds(j.visits[last].arcs[b]));
                lemma_enqueue_keeps_within(j, key, fitness, j.visits[last].arcs[b], x);
            }
            assert(after.born_at(x, last, a));
        }
    }
    assert forall|i: int| 0 <= i < after.visits.len() - 1 implies #[trigger] after.expanded(i) by {
        assert(j.expanded(i));
        lemma_enqueue_keeps_expanded(j, key, fitness, i, j.visits[i].arcs.len() as int);
    }
}

/// The journal stays coherent when a state is taken from the frontier,
/// provided that the search has not met its goal, that the visit before
/// was expanded in full, and that the state taken was waiting and no
/// waiting state had a greater fitness.
pub proof fn lemma_visit_keeps_coherent(j: Journal, v: Visit)
    requires
        j.coherent(),
        j.goalless(),
        j.visits.len() > 0 ==> j.expanded(j.visits.len() - 1),
        j.visits.len() == 0 ==> j.enqueued.len() == 1,
        v.known == j.enqueued.len(),
        v.known >= 1,
        v.goal ==> v.arcs.len() == 0,
        exists|x: int| 0 <= x < j.enqueued.len() && #[trigger] j.enqueued[x] == (v.key, v.fitness),
        !j.visited(v.key),
        forall|x: int|
            0 <= x < j.enqueued.len() && (#[trigger] j.enqueued[x]).1 > v.fitness ==> j.visited(
                j.enqueued[x].0,
            ),
    ensures
        j.visit(v).coherent(),
{
    let after = j.visit(v);
    let m = j.visits.len() as int;
    assert forall|a: int, b: int| 0 <= a < b < after.visits.len() implies (
    #[trigger] after.visits[a]).key != (#[trigger] after.visits[b]).key by {
        if b == m {
            if j.visits[a].key == v.key {
                assert(j.visited(v.key));
            }
        }
    }
    assert forall|i: int| 0 <= i < after.visits.len() implies #[trigger] after.visit_in_turn(i) by {
        if i < m {
            assert(j.visit_in_turn(i));
            let w = j.visits[i];
            let x = choose|x: int| 0 <= x < w.known && #[trigger] j.enqueued[x] == (w.key, w.fitness);
            assert(after.enqueued[x] == (w.key, w.fitness));
            assert(!j.visits[i].goal);
            if i > 0 {
                assert(j.spread_within(i - 1, w.known as int));
                assert(after.visits[i - 1] == j.visits[i - 1]);
            }
        } else {
            if m > 0 {
                assert(j.visit_in_turn(m - 1));
                assert(j.expanded(m - 1));
                assert forall|a: int| 0 <= a < after.visits[m - 1].arcs.len() implies after.enqueued_within(
                    #[trigger] after.visits[m - 1].arcs[a],
                    v.known as int,
                ) by {
                    let arc = j.visits[m - 1].arcs[a];
                    assert(j.holds(arc));
                    let y = choose|y: int|
                        0 <= y < j.enqueued.len() && (#[trigger] j.enqueued[y]).0 == arc;
                    assert(after.enqueued[y].0 == arc);
                }
            }
            let x = choose|x: int|
                0 <= x < j.enqueued.len() && #[trigger] j.enqueued[x] == (v.key, v.fitness);
            assert(after.enqueued[x] == (v.key, v.fitness));
        }
    }
    assert forall|i: int, x: int|
        0 <= i < after.visits.len() && 0 <= x < after.enqueued.len() implies #[trigger] after.greedy_at(
        i,
        x,
    ) by {
        if i < m {
            assert(j.greedy_at(i, x));
            if j.visited_within(j.enqueued[x].0, i) {
                let w = choose|w: int|
                    0 <= w < i && w < j.visits.len() && (#[trigger] j.visits[w]).key
                        == j.enqueued[x].0;
                assert(after.visits[w].key == j.enqueued[x].0);
            }
        } else {
            if j.enqueued[x].1 > v.fitness {
                assert(j.visited(j.enqueued[x].0));
                let w = choose|w: int|
                    0 <= w < m && w < j.visits.len() && (#[trigger] j.visits[w]).key
                        == j.enqueued[x].0;
                assert(after.visits[w].key == j.enqueued[x].0);
            }
        }
    }
    assert forall|x: int| 1 <= x < after.enqueued.len() implies #[trigger] after.has_origin(x) by {
        assert(j.has_origin(x));
        let (i, a) = choose|i: int, a: int| #[trigger] j.born_at(x, i, a);
        assert(after.visits[i] == j.visits[i]);
        if i + 1 < m {
            assert(after.visits[i + 1] == j.visits[i + 1]);
        }
        assert forall|b: int| 0 <= b < a implies after.enqueued_within(
            #[trigger] after.visits[i].arcs[b],
            x,
        ) by {
            assert(j.enqueued_within(j.visits[i].arcs[b], x));
        }
        assert(after.born_at(x, i, a));
    }
    assert forall|i: int| 0 <= i < after.visits.len() - 1 implies #[trigger] after.expanded(i) by {
        assert(j.expanded(i));
    }
}

/// The journal stays coherent when the latest visit generates one more
/// neighbour; what was enqueued and visited stays the same, and so does
/// what the visit had expanded.
pub proof fn lemma_arc_keeps_coherent(j: Journal, key: u64)
    requires
        j.coherent(),
        j.visits.len() >= 1,
        !j.visits.last().goal,
    ensures
        j.note_arc(key).coherent(),
        j.note_arc(key).enqueued == j.enqueued,
        j.note_arc(key).refused == j.refused,
        j.note_arc(key).visits.len() == j.visits.len(),
        j.note_arc(key).visits.last().arcs == j.visits.last().arcs.push(key),
        !j.note_arc(key).visits.last().goal,
        j.note_arc(key).visits.last().key == j.visits.last().key,
        j.note_arc(key).visits.last().fitness == j.visits.last().fitness,
        forall|i: int|
            0 <= i < j.visits.len() - 1 ==> (#[trigger] j.note_arc(key).visits[i]) == j.visits[i],
        j.goalless() ==> j.note_arc(key).goalless(),
        forall|k: u64| j.holds(k) == j.note_arc(key).holds(k),
        forall|k: u64| j.visited(k) == j.note_arc(key).visited(k),
        j.expanded(j.visits.len() - 1) ==> j.note_arc(key).expanded_to(
            j.visits.len() - 1,
            j.visits.last().arcs.len() as int,
        ),
{
    let after = j.note_arc(key);
    let last = j.visits.len() - 1;
    assert forall|i: int| 0 <= i < j.visits.len() implies (#[trigger] after.visits[i]).key
        == j.visits[i].key && after.visits[i].fitness == j.visits[i].fitness
        && after.visits[i].known == j.visits[i].known && after.visits[i].goal == j.visits[i].goal
        && (i != last ==> after.visits[i].arcs == j.visits[i].arcs) by {}
    assert forall|k: u64, upto: int| j.visited_within(k, upto) == after.visited_within(k, upto) by {
        if j.visited_within(k, upto) {
            let i = choose|i: int|
                0 <= i < upto && i < j.visits.len() && (#[trigger] j.visits[i]).key == k;
            assert(after.visits[i].key == k);
        }
        if after.visited_within(k, upto) {
            let i = choose|i: int|
                0 <= i < upto && i < after.visits.len() && (#[trigger] after.visits[i]).key == k;
            assert(j.visits[i].key == k);
        }
    }
    assert forall|a: int, b: int| 0 <= a < b < after.visits.len() implies (
    #[trigger] after.visits[a]).key != (#[trigger] after.visits[b]).key by {
        assert(j.visits[a].key != j.visits[b].key);
    }
    assert forall|i: int| 0 <= i < after.visits.len() implies #[trigger] after.visit_in_turn(i) by {
        assert(j.visit_in_turn(i));
        let v = j.visits[i];
        let x = choose|x: int| 0 <= x < v.known && #[trigger] j.enqueued[x] == (v.key, v.fitness);
        assert(after.enqueued[x] == (v.key, v.fitness));
        if i > 0 {
            assert(after.visits[i - 1].arcs == j.visits[i - 1].arcs);
            assert forall|a: int| 0 <= a < after.visits[i - 1].arcs.len() implies after.enqueued_within(
                #[trigger] after.visits[i - 1].arcs[a],
                v.known as int,
            ) by {
                assert(j.enqueued_within(j.visits[i - 1].arcs[a], v.known as int));
            }
        }
    }
    assert forall|i: int, x: int|
        0 <= i < after.visits.len() && 0 <= x < after.enqueued.len() implies #[trigger] after.greedy_at(
        i,
        x,
    ) by {
        assert(j.greedy_at(i, x));
    }
    assert forall|x: int| 1 <= x < after.enqueued.len() implies #[trigger] after.has_origin(x) by {
        assert(j.has_origin(x));
        let (i, a) = choose|i: int, a: int| #[trigger] j.born_at(x, i, a);
        assert(after.visits[i].arcs[a] == j.visits[i].arcs[a]);
        assert forall|b: int| 0 <= b < a implies after.enqueued_within(
            #[trigger] after.visits[i].arcs[b],
            x,
        ) by {
            assert(after.visits[i].arcs[b] == j.visits[i].arcs[b]);
            assert(j.enqueued_within(j.visits[i].arcs[b], x));
        }
        assert(after.born_at(x, i, a));
    }
    assert forall|i: int| 0 <= i < after.visits.len() - 1 implies #[trigger] after.expanded(i) by {
        assert(j.expanded(i));
    }
    if j.expanded(last) {
        assert forall|a: int|
            0 <= a < j.visits.last().arcs.len() && a < after.visits[last].arcs.len()
                implies after.holds(#[trigger] after.visits[last].arcs[a]) by {
            assert(j.holds(j.visits[last].arcs[a]));
        }
    }
}

} // verus!
