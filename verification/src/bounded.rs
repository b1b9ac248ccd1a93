//! Results of analyses that may stop at a resource limit.
use crate::checker::InconclusiveReason;
use vstd::prelude::*;

verus! {

/// A property result under deterministic exploration limits.
///
/// A conclusive value is returned only when the property-specific proof or
/// counterexample is complete. A resource cutoff is represented explicitly
/// and never stands for absence, safety, or satisfaction.
#[derive(Debug, Clone, PartialEq, Eq)]
pub enum BoundedOutcome<T> {
    Conclusive(T),
    Inconclusive(InconclusiveReason),
}

impl<T> BoundedOutcome<T> {
    pub fn as_ref(&self) -> (r: BoundedOutcome<&T>)
        ensures
            match *self {
                BoundedOutcome::Conclusive(v) => r == BoundedOutcome::Conclusive(&v),
                BoundedOutcome::Inconclusive(reason) => r == BoundedOutcome::<&T>::Inconclusive(reason),
            },
    {
        match self {
            BoundedOutcome::Conclusive(value) => BoundedOutcome::Conclusive(value),
            BoundedOutcome::Inconclusive(reason) => BoundedOutcome::Inconclusive(*reason),
        }
    }

    pub fn inconclusive_reason(&self) -> (r: Option<InconclusiveReason>)
        ensures
            match *self {
                BoundedOutcome::Conclusive(_) => r is None,
                BoundedOutcome::Inconclusive(reason) => r == Some(reason),
            },
    {
        match self {
            BoundedOutcome::Conclusive(_) => None,
            BoundedOutcome::Inconclusive(reason) => Some(*reason),
        }
    }
}

} // verus!
