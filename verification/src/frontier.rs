use crate::entry::HeapEntry;
use crate::swaps::lemma_swapped_same_multiset;
use crate::swaps::swapped;
use vstd::multiset::Multiset;
use vstd::prelude::*;
use vstd::seq_lib::to_multiset_build;
use vstd::seq_lib::to_multiset_contains;
use vstd::seq_lib::to_multiset_len;
use vstd::seq_lib::to_multiset_remove;
use vstd::seq_lib::to_multiset_update;

verus! {

/// The entry at `i` does not outrank the entry stored at its parent slot.
pub open spec fn below_parent<T>(s: Seq<HeapEntry<T>>, i: int) -> bool {
    s[(i - 1) / 2].value >= s[i].value
}

/// Every slot but the root is outranked by its parent: the shape of a
/// binary max-heap laid out in an array.
pub open spec fn heap_ordered<T>(s: Seq<HeapEntry<T>>) -> bool {
    forall|i: int| 1 <= i < s.len() ==> #[trigger] below_parent(s, i)
}

/// Heap order holds everywhere except possibly between slot `k` and its
/// parent, and the children of `k` are outranked by the parent of `k`.
spec fn ordered_but_above<T>(s: Seq<HeapEntry<T>>, k: int) -> bool {
    &&& forall|i: int| 1 <= i < s.len() && i != k ==> #[trigger] below_parent(s, i)
    &&& forall|i: int|
        1 <= i < s.len() && (i - 1) / 2 == k && k >= 1 ==> s[(k - 1) / 2].value
            >= (#[trigger] s[i]).value
}

/// Heap order holds everywhere except possibly between slot `k` and its
/// children, and the children of `k` are outranked by the parent of `k`.
spec fn ordered_but_below<T>(s: Seq<HeapEntry<T>>, k: int) -> bool {
    &&& forall|i: int| 1 <= i < s.len() && (i - 1) / 2 != k ==> #[trigger] below_parent(s, i)
    &&& forall|i: int|
        1 <= i < s.len() && (i - 1) / 2 == k && k >= 1 ==> s[(k - 1) / 2].value
            >= (#[trigger] s[i]).value
}

/// In a heap-ordered array the root outranks every slot.
proof fn lemma_root_is_greatest<T>(s: Seq<HeapEntry<T>>, i: int)
    requires
        heap_ordered(s),
        0 <= i < s.len(),
    ensures
        s[0].value >= s[i].value,
    decreases i,
{
    if i > 0 {
        assert(below_parent(s, i));
        lemma_root_is_greatest(s, (i - 1) / 2);
    }
}

/// Exchanges two distinct slots of `v`, using `spare` as scratch space
/// and leaving it as it was.
fn exchange<T>(v: &mut Vec<T>, i: usize, j: usize, spare: &mut T)
    requires
        i < old(v).len(),
        j < old(v).len(),
        i != j,
    ensures
        final(v)@ == swapped(old(v)@, i as int, j as int),
        *final(spare) == *old(spare),
{
    core::mem::swap(&mut v[i], spare);
    core::mem::swap(&mut v[j], spare);
    core::mem::swap(&mut v[i], spare);
    assert(v@ =~= swapped(old(v)@, i as int, j as int));
}

/// Moves the entry at `start` towards the root until its parent outranks
/// it. The array is read as `v` followed by `spare`, which stays in place.
fn sift_up<T>(v: &mut Vec<HeapEntry<T>>, start: usize, spare: &mut HeapEntry<T>)
    requires
        start < old(v).len(),
        ordered_but_above(old(v)@.push(*old(spare)), start as int),
    ensures
        heap_ordered(final(v)@.push(*final(spare))),
        final(v)@.to_multiset() == old(v)@.to_multiset(),
        final(v).len() == old(v).len(),
        *final(spare) == *old(spare),
{
    let mut k: usize = start;
    while k > 0 && v[(k - 1) / 2] < v[k]
        invariant
            k < v.len(),
            v.len() == old(v).len(),
            *spare == *old(spare),
            v@.to_multiset() == old(v)@.to_multiset(),
            ordered_but_above(v@.push(*spare), k as int),
        decreases k,
    {
        let p: usize = (k - 1) / 2;
        let ghost before = v@.push(*spare);
        proof {
            lemma_swapped_same_multiset(v@, k as int, p as int);
        }
        exchange(v, k, p, spare);
        proof {
            let after = v@.push(*spare);
            assert(after =~= swapped(before, k as int, p as int));
            assert forall|i: int| 1 <= i < after.len() && i != p implies #[trigger] below_parent(
                after,
                i,
            ) by {
                if i != k {
                    assert(below_parent(before, i));
                    if (i - 1) / 2 == k {
                        assert(before[(k - 1) / 2].value >= before[i].value);
                    }
                }
            }
            assert forall|i: int|
                1 <= i < after.len() && (i - 1) / 2 == p && p >= 1 implies after[(p - 1)
                / 2].value >= (#[trigger] after[i]).value by {
                assert(below_parent(before, p as int));
                if i != k {
                    assert(below_parent(before, i));
                }
            }
        }
        k = p;
    }
    proof {
        let done = v@.push(*spare);
        assert forall|i: int| 1 <= i < done.len() implies #[trigger] below_parent(done, i) by {
            if i != k {
                assert(below_parent(done, i));
            }
        }
    }
}

/// Moves the entry at the root towards the leaves until it outranks both
/// of its children. `spare` is scratch space and is left as it was.
fn sift_down<T>(v: &mut Vec<HeapEntry<T>>, spare: &mut HeapEntry<T>)
    requires
        ordered_but_below(old(v)@, 0),
    ensures
        heap_ordered(final(v)@),
        final(v)@.to_multiset() == old(v)@.to_multiset(),
        final(v).len() == old(v).len(),
        *final(spare) == *old(spare),
{
    let n: usize = v.len();
    let mut k: usize = 0;
    let mut settled: bool = false;
    while !settled && k < n / 2
        invariant
            n == v.len(),
            v.len() == old(v).len(),
            *spare == *old(spare),
            v@.to_multiset() == old(v)@.to_multiset(),
            settled ==> heap_ordered(v@),
            !settled ==> ordered_but_below(v@, k as int),
        decreases n - k, (if settled { 0int } else { 1int }),
    {
        let left: usize = 2 * k + 1;
        let mut child: usize = left;
        if left + 1 < n && v[left + 1] > v[left] {
            child = left + 1;
        }
        if v[child] > v[k] {
            let ghost before = v@;
            proof {
                lemma_swapped_same_multiset(v@, k as int, child as int);
            }
            exchange(v, k, child, spare);
            proof {
                let after = v@;
                assert forall|i: int|
                    1 <= i < after.len() && (i - 1) / 2 != child implies #[trigger] below_parent(
                    after,
                    i,
                ) by {
                    if (i - 1) / 2 == k {
                        assert(i == left || i == left + 1);
                    } else if i == k {
                        assert(before[(k - 1) / 2].value >= before[child as int].value);
                    } else {
                        assert(below_parent(before, i));
                    }
                }
                assert forall|i: int|
                    1 <= i < after.len() && (i - 1) / 2 == child && child >= 1 implies after[(
                    child - 1) / 2].value >= (#[trigger] after[i]).value by {
                    assert(below_parent(before, i));
                }
            }
            k = child;
        } else {
            proof {
                assert forall|i: int| 1 <= i < v@.len() implies #[trigger] below_parent(v@, i) by {
                    if (i - 1) / 2 == k {
                        assert(i == left || i == left + 1);
                    } else {
                        assert(below_parent(v@, i));
                    }
                }
            }
            settled = true;
        }
    }
    proof {
        if !settled {
            assert forall|i: int| 1 <= i < v@.len() implies #[trigger] below_parent(v@, i) by {
                if (i - 1) / 2 != k {
                    assert(below_parent(v@, i));
                }
            }
        }
    }
}

/// The search frontier: the scored states that are waiting to be
/// expanded, kept so that one of greatest fitness can be taken out first.
///
/// The view is the multiset of waiting entries.
pub struct Frontier<T> {
    entries: Vec<HeapEntry<T>>,
}

impl<T> View for Frontier<T> {
    type V = Multiset<HeapEntry<T>>;

    closed spec fn view(&self) -> Multiset<HeapEntry<T>> {
        self.entries@.to_multiset()
    }
}

impl<T> Frontier<T> {
    #[verifier::type_invariant]
    spec fn ordered(&self) -> bool {
        heap_ordered(self.entries@)
    }

    /// An empty frontier.
    pub fn new() -> (frontier: Self)
        ensures
            frontier@ == Multiset::<HeapEntry<T>>::empty(),
    {
        broadcast use vstd::seq_lib::group_to_multiset_ensures;

        let entries: Vec<HeapEntry<T>> = Vec::new();
        assert(entries@ =~= Seq::<HeapEntry<T>>::empty());
        assert(entries@.to_multiset() =~= Multiset::<HeapEntry<T>>::empty());
        Frontier { entries }
    }

    /// The number of waiting entries.
    pub fn len(&self) -> (n: usize)
        ensures
            n == self@.len(),
    {
        proof {
            to_multiset_len(self.entries@);
        }
        self.entries.len()
    }

    /// Whether no entry is waiting.
    pub fn is_empty(&self) -> (empty: bool)
        ensures
            empty == (self@.len() == 0),
    {
        proof {
            to_multiset_len(self.entries@);
        }
        self.entries.len() == 0
    }

    /// Adds one entry to the waiting ones.
    pub fn push(&mut self, entry: HeapEntry<T>)
        ensures
            final(self)@ == old(self)@.insert(entry),
    {
        proof {
            use_type_invariant(&*self);
        }
        let mut entries: Vec<HeapEntry<T>> = Vec::new();
        core::mem::swap(&mut entries, &mut self.entries);
        insert_in_order(&mut entries, entry);
        self.entries = entries;
    }

    /// An entry of greatest fitness among the waiting ones, left in
    /// place; `None` when nothing is waiting.
    pub fn peek(&self) -> (top: Option<&HeapEntry<T>>)
        ensures
            top is None <==> self@.len() == 0,
            top matches Some(entry) ==> self@.count(*entry) > 0 && is_greatest(self@, *entry),
    {
        proof {
            use_type_invariant(self);
            to_multiset_len(self.entries@);
        }
        if self.entries.len() == 0 {
            None
        } else {
            proof {
                lemma_root_is_greatest_of_all(self.entries@);
            }
            Some(&self.entries[0])
        }
    }

    /// Takes out an entry of greatest fitness among the waiting ones;
    /// `None`, with nothing changed, when nothing is waiting. Which of
    /// several entries of equal fitness leaves first is not determined.
    pub fn pop(&mut self) -> (top: Option<HeapEntry<T>>)
        ensures
            top is None <==> old(self)@.len() == 0,
            top is None ==> final(self)@ == old(self)@,
            top matches Some(entry) ==> {
                &&& old(self)@.count(entry) > 0
                &&& is_greatest(old(self)@, entry)
                &&& final(self)@ == old(self)@.remove(entry)
            },
    {
        proof {
            use_type_invariant(&*self);
            to_multiset_len(self.entries@);
        }
        let mut entries: Vec<HeapEntry<T>> = Vec::new();
        core::mem::swap(&mut entries, &mut self.entries);
        let top = remove_greatest(&mut entries);
        self.entries = entries;
        top
    }
}

/// No entry of `waiting` has a fitness above that of `entry`.
pub open spec fn is_greatest<T>(waiting: Multiset<HeapEntry<T>>, entry: HeapEntry<T>) -> bool {
    forall|other: HeapEntry<T>| #[trigger] waiting.count(other) > 0 ==> other.value <= entry.value
}

proof fn lemma_root_is_greatest_of_all<T>(s: Seq<HeapEntry<T>>)
    requires
        heap_ordered(s),
        s.len() > 0,
    ensures
        s.to_multiset().count(s[0]) > 0,
        is_greatest(s.to_multiset(), s[0]),
{
    to_multiset_contains(s, s[0]);
    assert(s.contains(s[0]));
    assert forall|other: HeapEntry<T>| #[trigger] s.to_multiset().count(other) > 0 implies other.value
        <= s[0].value by {
        to_multiset_contains(s, other);
        let i = choose|i: int| 0 <= i < s.len() && s[i] == other;
        lemma_root_is_greatest(s, i);
    }
}

fn insert_in_order<T>(v: &mut Vec<HeapEntry<T>>, entry: HeapEntry<T>)
    requires
        heap_ordered(old(v)@),
    ensures
        heap_ordered(final(v)@),
        final(v)@.to_multiset() == old(v)@.to_multiset().insert(entry),
{
    broadcast use vstd::multiset::group_multiset_axioms;

    let n: usize = v.len();
    if n == 0 {
        proof {
            to_multiset_build(v@, entry);
        }
        v.push(entry);
        return ;
    }
    let p: usize = (n - 1) / 2;
    if v[p] >= entry {
        proof {
            to_multiset_build(v@, entry);
            let grown = v@.push(entry);
            assert forall|i: int| 1 <= i < grown.len() implies #[trigger] below_parent(grown, i) by {
                if i < n {
                    assert(below_parent(v@, i));
                }
            }
        }
        v.push(entry);
        return ;
    }
    let mut spare = entry;
    let ghost before = v@;
    core::mem::swap(&mut v[p], &mut spare);
    proof {
        assert(v@ =~= before.update(p as int, entry));
        assert(spare == before[p as int]);
        to_multiset_update(before, p as int, entry);
        let grown = v@.push(spare);
        assert forall|i: int| 1 <= i < grown.len() && i != p implies #[trigger] below_parent(
            grown,
            i,
        ) by {
            if i < n {
                assert(below_parent(before, i));
            }
        }
        assert forall|i: int|
            1 <= i < grown.len() && (i - 1) / 2 == p && p >= 1 implies grown[(p - 1) / 2].value
            >= (#[trigger] grown[i]).value by {
            assert(below_parent(before, p as int));
            if i < n {
                assert(below_parent(before, i));
            }
        }
    }
    sift_up(v, p, &mut spare);
    proof {
        to_multiset_build(v@, spare);
        to_multiset_contains(before, before[p as int]);
        assert(before.contains(before[p as int]));
        assert(before.to_multiset().insert(entry).remove(before[p as int]).insert(before[p as int])
            =~= before.to_multiset().insert(entry));
    }
    v.push(spare);
}

fn remove_greatest<T>(v: &mut Vec<HeapEntry<T>>) -> (top: Option<HeapEntry<T>>)
    requires
        heap_ordered(old(v)@),
    ensures
        heap_ordered(final(v)@),
        top is None <==> old(v)@.len() == 0,
        top is None ==> final(v)@ == old(v)@,
        top matches Some(entry) ==> {
            &&& old(v)@.to_multiset().count(entry) > 0
            &&& is_greatest(old(v)@.to_multiset(), entry)
            &&& final(v)@.to_multiset() == old(v)@.to_multiset().remove(entry)
        },
{
    broadcast use vstd::multiset::group_multiset_axioms;

    if v.len() == 0 {
        return None;
    }
    let ghost before = v@;
    let ghost last = before.len() - 1;
    proof {
        lemma_root_is_greatest_of_all(before);
    }
    let mut top = v.swap_remove(0);
    proof {
        let patched = before.update(0, before[last]);
        assert(v@ =~= patched.remove(last));
        to_multiset_update(before, 0, before[last]);
        to_multiset_remove(patched, last);
        to_multiset_contains(before, before[last]);
        assert(before.contains(before[last]));
        assert(v@.to_multiset() =~= before.to_multiset().remove(top));
        assert forall|i: int| 1 <= i < v@.len() && (i - 1) / 2 != 0 implies #[trigger] below_parent(
            v@,
            i,
        ) by {
            assert(below_parent(before, i));
        }
    }
    sift_down(v, &mut top);
    Some(top)
}

} // verus!
