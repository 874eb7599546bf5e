//! Unwrapping a value the caller knows is there.
use vstd::prelude::*;

verus! {

/// Unwrap a value that is known to be present: the caller proves it is.
pub trait Unwrap_<T>: Sized {
    /// The value is present.
    spec fn has_value(&self) -> bool;

    /// The value, when present.
    spec fn value_of(&self) -> T;

    fn unwrap_(self) -> (r: T)
        requires
            self.has_value(),
        ensures
            r == self.value_of(),
    ;
}

impl<T> Unwrap_<T> for Option<T> {
    open spec fn has_value(&self) -> bool {
        self is Some
    }

    open spec fn value_of(&self) -> T {
        self->0
    }

    fn unwrap_(self) -> (r: T) {
        self.unwrap()
    }
}

impl<T, E: std::fmt::Debug> Unwrap_<T> for Result<T, E> {
    open spec fn has_value(&self) -> bool {
        self is Ok
    }

    open spec fn value_of(&self) -> T {
        self->Ok_0
    }

    fn unwrap_(self) -> (r: T) {
        self.unwrap()
    }
}

} // verus!
