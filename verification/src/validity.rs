use vstd::prelude::*;

verus! {

/// A value, or the errors that kept it from being one.
pub enum Validity<T, E> {
    Valid(T),
    Invalid(E),
}

} // verus!
