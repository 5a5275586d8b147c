use std::cmp::Ordering;
use vstd::prelude::*;

verus! {

/// A state paired with the fitness it was given when it was scored.
///
/// Entries are ranked by `value` alone, higher first; `item` never takes
/// part in a comparison, so two entries of equal fitness rank the same
/// whatever states they hold.
pub struct HeapEntry<T> {
    pub value: i64,
    pub item: T,
}

impl<T: Clone> Clone for HeapEntry<T> {
    /// An entry of the same fitness holding a clone of the state.
    fn clone(&self) -> (copy: Self)
        ensures
            copy.value == self.value,
            cloned(self.item, copy.item),
    {
        HeapEntry { value: self.value, item: self.item.clone() }
    }
}

impl<T> PartialEq for HeapEntry<T> {
    /// Whether the two entries have the same fitness.
    fn eq(&self, other: &Self) -> (equal: bool) {
        self.value == other.value
    }
}

impl<T> vstd::std_specs::cmp::PartialEqSpecImpl for HeapEntry<T> {
    open spec fn obeys_eq_spec() -> bool {
        true
    }

    open spec fn eq_spec(&self, other: &Self) -> bool {
        self.value == other.value
    }
}

impl<T> Eq for HeapEntry<T> {

}

impl<T> PartialOrd for HeapEntry<T> {
    /// How the fitness of this entry stands to that of `other`. Any two
    /// entries can be compared.
    fn partial_cmp(&self, other: &Self) -> (order: Option<Ordering>) {
        if self.value < other.value {
            Some(Ordering::Less)
        } else if self.value == other.value {
            Some(Ordering::Equal)
        } else {
            Some(Ordering::Greater)
        }
    }
}

impl<T> vstd::std_specs::cmp::PartialOrdSpecImpl for HeapEntry<T> {
    open spec fn obeys_partial_cmp_spec() -> bool {
        true
    }

    open spec fn partial_cmp_spec(&self, other: &Self) -> Option<Ordering> {
        if self.value < other.value {
            Some(Ordering::Less)
        } else if self.value == other.value {
            Some(Ordering::Equal)
        } else {
            Some(Ordering::Greater)
        }
    }
}

} // verus!
