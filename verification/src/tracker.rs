use crate::entry::HeapEntry;
use vstd::prelude::*;

verus! {

/// Each record has a strictly greater fitness than the one before it.
pub open spec fn rising<T>(log: Seq<HeapEntry<T>>) -> bool {
    forall|i: int, j: int| 0 <= i < j < log.len() ==> log[i].value < log[j].value
}

/// The log after `entry` has been offered to it: the entry is appended
/// when the log is empty or the entry beats the latest record, and the
/// log stays as it is otherwise.
pub open spec fn recorded<T>(log: Seq<HeapEntry<T>>, entry: HeapEntry<T>) -> Seq<HeapEntry<T>> {
    if log.len() == 0 || entry.value > log.last().value {
        log.push(entry)
    } else {
        log
    }
}

/// The fitness of the best record of a log, if it has one.
pub open spec fn best_value<T>(log: Seq<HeapEntry<T>>) -> Option<i64> {
    if log.len() == 0 {
        None
    } else {
        Some(log.last().value)
    }
}

/// Whether `later` is at least as good a best fitness as `earlier`.
pub open spec fn not_worse(earlier: Option<i64>, later: Option<i64>) -> bool {
    match (earlier, later) {
        (None, _) => true,
        (Some(_), None) => false,
        (Some(a), Some(b)) => a <= b,
    }
}

/// Offering an entry to a log never lowers its best fitness, keeps the
/// records rising, and leaves the log holding no record above both its
/// former best and the entry.
pub proof fn lemma_record_never_lowers_best<T>(log: Seq<HeapEntry<T>>, entry: HeapEntry<T>)
    requires
        rising(log),
    ensures
        rising(recorded(log, entry)),
        not_worse(best_value(log), best_value(recorded(log, entry))),
        best_value(recorded(log, entry)) == Some(
            if log.len() > 0 && log.last().value >= entry.value {
                log.last().value
            } else {
                entry.value
            },
        ),
{
}

/// The fitness of each record of a log, oldest first.
pub open spec fn values_of<T>(log: Seq<HeapEntry<T>>) -> Seq<i64> {
    Seq::new(log.len(), |i: int| log[i].value)
}

/// The fitness of each record after scores of the fitness `offers` have
/// been offered in turn to a log whose records had the fitness
/// `values`.
pub open spec fn climbed(values: Seq<i64>, offers: Seq<i64>) -> Seq<i64>
    decreases offers.len(),
{
    if offers.len() == 0 {
        values
    } else {
        let before = climbed(values, offers.drop_last());
        if before.len() == 0 || offers.last() > before.last() {
            before.push(offers.last())
        } else {
            before
        }
    }
}

/// The log after each of `offers` has been offered to it in turn.
pub open spec fn replayed<T>(log: Seq<HeapEntry<T>>, offers: Seq<HeapEntry<T>>) -> Seq<HeapEntry<T>>
    decreases offers.len(),
{
    if offers.len() == 0 {
        log
    } else {
        recorded(replayed(log, offers.drop_last()), offers.last())
    }
}

/// Over any run of offers the best fitness never falls and no record is
/// taken away: after the first `n` offers the best fitness is no greater
/// than after all of them, and the log is the beginning of the later
/// one.
pub proof fn lemma_best_never_falls<T>(log: Seq<HeapEntry<T>>, offers: Seq<HeapEntry<T>>, n: int)
    requires
        0 <= n <= offers.len(),
    ensures
        not_worse(
            best_value(replayed(log, offers.take(n))),
            best_value(replayed(log, offers)),
        ),
        replayed(log, offers.take(n)).is_prefix_of(replayed(log, offers)),
    decreases offers.len(),
{
    if n == offers.len() {
        assert(offers.take(n) =~= offers);
    } else {
        lemma_best_never_falls(log, offers.drop_last(), n);
        assert(offers.drop_last().take(n) =~= offers.take(n));
    }
}

/// Replaying offers keeps a rising log rising.
pub proof fn lemma_replayed_rises<T>(log: Seq<HeapEntry<T>>, offers: Seq<HeapEntry<T>>)
    requires
        rising(log),
    ensures
        rising(replayed(log, offers)),
    decreases offers.len(),
{
    if offers.len() > 0 {
        lemma_replayed_rises(log, offers.drop_last());
        lemma_record_never_lowers_best(replayed(log, offers.drop_last()), offers.last());
    }
}

/// In a rising log the last record is the best one.
pub proof fn lemma_last_is_best<T>(log: Seq<HeapEntry<T>>, i: int)
    requires
        rising(log),
        0 <= i < log.len(),
    ensures
        log[i].value <= log.last().value,
{
}

/// Remembers the best state scored so far. A record is added each time a
/// score beats every earlier one; records are never taken away.
///
/// The view is the list of records, oldest first.
pub struct BestTracker<T> {
    records: Vec<HeapEntry<T>>,
}

impl<T> View for BestTracker<T> {
    type V = Seq<HeapEntry<T>>;

    closed spec fn view(&self) -> Seq<HeapEntry<T>> {
        self.records@
    }
}

impl<T> BestTracker<T> {
    #[verifier::type_invariant]
    spec fn well_formed(&self) -> bool {
        rising(self.records@)
    }

    /// A tracker with no record.
    pub fn new() -> (tracker: Self)
        ensures
            tracker@ == Seq::<HeapEntry<T>>::empty(),
    {
        BestTracker { records: Vec::new() }
    }

    /// The number of records, which is the number of times the best
    /// fitness was beaten.
    pub fn len(&self) -> (n: usize)
        ensures
            n == self@.len(),
    {
        self.records.len()
    }

    /// Whether `fitness` would set a new record.
    pub fn beats(&self, fitness: i64) -> (better: bool)
        ensures
            better == (self@.len() == 0 || fitness > self@.last().value),
    {
        let n: usize = self.records.len();
        n == 0 || fitness > self.records[n - 1].value
    }

    /// Offers a scored state to the tracker, which keeps it when it is
    /// the first or beats the best fitness recorded so far.
    pub fn record(&mut self, state: T, fitness: i64)
        ensures
            final(self)@ == recorded(old(self)@, HeapEntry { value: fitness, item: state }),
            rising(final(self)@),
            not_worse(best_value(old(self)@), best_value(final(self)@)),
    {
        proof {
            use_type_invariant(&*self);
        }
        if self.beats(fitness) {
            let mut records: Vec<HeapEntry<T>> = Vec::new();
            core::mem::swap(&mut records, &mut self.records);
            records.push(HeapEntry { value: fitness, item: state });
            self.records = records;
        }
    }

    /// The record of greatest fitness, or `None` when nothing has been
    /// recorded yet.
    pub fn peek_best(&self) -> (best: Option<&HeapEntry<T>>)
        ensures
            best is None <==> self@.len() == 0,
            best matches Some(entry) ==> {
                &&& *entry == self@.last()
                &&& forall|i: int| 0 <= i < self@.len() ==> self@[i].value <= entry.value
            },
            rising(self@),
    {
        proof {
            use_type_invariant(self);
        }
        let n: usize = self.records.len();
        if n == 0 {
            None
        } else {
            Some(&self.records[n - 1])
        }
    }
}

} // verus!
