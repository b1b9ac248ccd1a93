//! Value identity for model and automaton states.
use vstd::prelude::*;

verus! {

/// A state value whose identity is its view: two states are the same state
/// exactly when their views are equal, and a copy has the same view.
///
/// Every checker in this crate compares and duplicates states only through
/// this interface, so the deduplication of explored states is stated over
/// views.
pub trait StateValue: Sized + View {
    fn same_value(&self, other: &Self) -> (same: bool)
        ensures
            same == (self@ == other@),
    ;

    fn copy_value(&self) -> (copy: Self)
        ensures
            copy@ == self@,
    ;
}

impl StateValue for usize {
    fn same_value(&self, other: &Self) -> (same: bool) {
        *self == *other
    }

    fn copy_value(&self) -> (copy: Self) {
        *self
    }
}

impl StateValue for u64 {
    fn same_value(&self, other: &Self) -> (same: bool) {
        *self == *other
    }

    fn copy_value(&self) -> (copy: Self) {
        *self
    }
}

impl StateValue for u8 {
    fn same_value(&self, other: &Self) -> (same: bool) {
        *self == *other
    }

    fn copy_value(&self) -> (copy: Self) {
        *self
    }
}

impl StateValue for String {
    fn same_value(&self, other: &Self) -> (same: bool) {
        *self == *other
    }

    fn copy_value(&self) -> (copy: Self) {
        self.clone()
    }
}

impl StateValue for Vec<bool> {
    fn same_value(&self, other: &Self) -> (same: bool) {
        if self.len() != other.len() {
            return false;
        }
        let mut i: usize = 0;
        while i < self.len()
            invariant
                self@.len() == other@.len(),
                i <= self@.len(),
                forall|k: int| 0 <= k < i ==> self@[k] == other@[k],
            decreases self.len() - i,
        {
            if self[i] != other[i] {
                return false;
            }
            i += 1;
        }
        assert(self@ =~= other@);
        true
    }

    fn copy_value(&self) -> (copy: Self) {
        let mut copy: Vec<bool> = Vec::new();
        let mut i: usize = 0;
        while i < self.len()
            invariant
                i <= self@.len(),
                copy@ == self@.subrange(0, i as int),
            decreases self.len() - i,
        {
            copy.push(self[i]);
            i += 1;
            assert(copy@ =~= self@.subrange(0, i as int));
        }
        assert(copy@ =~= self@);
        copy
    }
}

/// Index of the first element of `values` whose view is `target`, if any.
pub open spec fn first_index_of<V>(values: Seq<V>, target: V) -> Option<int>
    decreases values.len(),
{
    if values.len() == 0 {
        None
    } else {
        match first_index_of(values.drop_last(), target) {
            Some(i) => Some(i),
            None => if values.last() == target {
                Some(values.len() - 1)
            } else {
                None
            },
        }
    }
}

/// The views of a sequence of state values.
pub open spec fn views_of<S: View>(values: Seq<S>) -> Seq<S::V> {
    values.map_values(|s: S| s@)
}

pub proof fn lemma_first_index_of<V>(values: Seq<V>, target: V)
    ensures
        match first_index_of(values, target) {
            Some(i) => 0 <= i < values.len() && values[i] == target && forall|j: int|
                0 <= j < i ==> values[j] != target,
            None => forall|j: int| 0 <= j < values.len() ==> values[j] != target,
        },
    decreases values.len(),
{
    if values.len() > 0 {
        lemma_first_index_of(values.drop_last(), target);
        assert(forall|j: int| 0 <= j < values.len() - 1 ==> values.drop_last()[j] == values[j]);
    }
}

/// Position of the first value in `values` that is the same state as `target`.
pub fn position_of<S: StateValue>(values: &Vec<S>, target: &S) -> (found: Option<usize>)
    ensures
        match first_index_of(views_of(values@), target@) {
            Some(i) => found == Some(i as usize),
            None => found is None,
        },
        match found {
            Some(i) => i < values.len() && values@[i as int]@ == target@,
            None => forall|j: int| 0 <= j < values.len() ==> values@[j]@ != target@,
        },
{
    proof {
        lemma_first_index_of(views_of(values@), target@);
    }
    let mut i: usize = 0;
    while i < values.len()
        invariant
            i <= values.len(),
            forall|j: int| 0 <= j < i ==> values@[j]@ != target@,
        decreases values.len() - i,
    {
        if values[i].same_value(target) {
            proof {
                lemma_first_index_unique(views_of(values@), target@, i as int);
            }
            return Some(i);
        }
        i += 1;
    }
    proof {
        assert(forall|j: int| 0 <= j < values.len() ==> views_of(values@)[j] != target@);
    }
    None
}

pub proof fn lemma_first_index_unique<V>(values: Seq<V>, target: V, i: int)
    requires
        0 <= i < values.len(),
        values[i] == target,
        forall|j: int| 0 <= j < i ==> values[j] != target,
    ensures
        first_index_of(values, target) == Some(i),
{
    lemma_first_index_of(values, target);
}

} // verus!
